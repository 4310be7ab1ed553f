//! The `k` cheapest simple paths between two nodes, by Yen's algorithm.

use vstd::prelude::*;

use crate::cost::Cost;
use crate::csr::{lemma_index_unique, CsrSnapshot, Edge};
use crate::dijkstra::{any_negative, some_negative, WeightedPath};
use crate::loopless::{beaten, cheapest_simple, simple_at, simple_to};
use crate::paths::{as_nodes, ids_of, is_walk};
use crate::rounds::{
    labelled, lemma_follows_more, lemma_onward, live_towards, nodes_towards, onward, settled,
};
use crate::schema::NodeId;
use crate::sets::{ids_in, insert_id, insert_pair, new_ids, new_pairs, pairs_in};
use crate::simple_paths::{lemma_distinct_bound, simple_path};
use crate::traversal::{arc, dense_of};
use crate::weighted::{
    anywhere, around, cheapest_walks, follows, in_row, lemma_tree_walk, lemma_walk_in_range,
    tree_path, tree_walk,
    walk_cost, walk_end, walk_nodes, Tree,
};

verus! {

/// The least weight among the slots `lo..hi` that lead to `v`.
pub open spec fn least_in<C: Cost>(
    col: Seq<u32>,
    weights: Seq<C>,
    lo: int,
    hi: int,
    v: int,
) -> Option<C>
    decreases hi - lo,
{
    if hi <= lo {
        None
    } else {
        let before = least_in(col, weights, lo, hi - 1, v);
        if col[hi - 1] == v {
            match before {
                None => Some(weights[hi - 1]),
                Some(c) => if c.le(weights[hi - 1]) {
                    Some(c)
                } else {
                    Some(weights[hi - 1])
                },
            }
        } else {
            before
        }
    }
}

/// The weight of going from `u` to `v`: that of the cheapest of the parallel edges.
pub open spec fn pair_weight<C: Cost>(
    snap: CsrSnapshot,
    weights: Seq<C>,
    u: int,
    v: int,
) -> C {
    match least_in(snap.col_idx@, weights, snap.row_ptr@[u] as int, snap.row_ptr@[u + 1] as int, v) {
        Some(w) => w,
        None => C::unit(),
    }
}

/// What the path `p` costs: its steps' weights, added from the first to the last.
pub open spec fn path_cost<C: Cost>(snap: CsrSnapshot, weights: Seq<C>, p: Seq<int>) -> C
    decreases p.len(),
{
    if p.len() <= 1 {
        C::zero()
    } else {
        path_cost(snap, weights, p.drop_last()).plus(
            pair_weight(snap, weights, p[p.len() - 2], p.last()),
        )
    }
}

/// Every node is in the graph.
pub open spec fn in_graph(snap: CsrSnapshot, p: Seq<int>) -> bool {
    forall|i: int| 0 <= i < p.len() ==> 0 <= #[trigger] p[i] < snap.n()
}

/// Every step is admitted.
pub open spec fn steps_open(open: spec_fn(int, int) -> bool, p: Seq<int>) -> bool {
    forall|i: int| 0 <= i < p.len() - 1 ==> open(#[trigger] p[i], p[i + 1])
}

proof fn lemma_least_in<C: Cost>(
    col: Seq<u32>,
    weights: Seq<C>,
    lo: int,
    hi: int,
    v: int,
    k: int,
)
    requires
        lo <= k < hi,
        col[k] == v,
    ensures
        least_in(col, weights, lo, hi, v) is Some,
        least_in(col, weights, lo, hi, v)->0.le(weights[k]),
        exists|j: int|
            lo <= j < hi && #[trigger] col[j] == v && weights[j] == least_in(
                col,
                weights,
                lo,
                hi,
                v,
            )->0,
    decreases hi - lo,
{
    let before = least_in(col, weights, lo, hi - 1, v);
    let w = weights[hi - 1];
    C::law_order(w, w, w);
    if k < hi - 1 {
        lemma_least_in(col, weights, lo, hi - 1, v, k);
        let c = before->0;
        let j = choose|j: int|
            lo <= j < hi - 1 && #[trigger] col[j] == v && weights[j] == before->0;
        C::law_order(c, w, w);
        C::law_order(w, c, weights[k]);
        assert(col[j] == v);
    } else if before is Some {
        lemma_least_in_found(col, weights, lo, hi - 1, v);
        let j = choose|j: int|
            lo <= j < hi - 1 && #[trigger] col[j] == v && weights[j] == before->0;
        assert(col[j] == v);
    }
    assert(col[hi - 1] == v ==> col[hi - 1] == v);
}

proof fn lemma_least_in_found<C: Cost>(
    col: Seq<u32>,
    weights: Seq<C>,
    lo: int,
    hi: int,
    v: int,
)
    requires
        least_in(col, weights, lo, hi, v) is Some,
    ensures
        exists|j: int|
            lo <= j < hi && #[trigger] col[j] == v && weights[j] == least_in(
                col,
                weights,
                lo,
                hi,
                v,
            )->0,
    decreases hi - lo,
{
    let before = least_in(col, weights, lo, hi - 1, v);
    if before is Some {
        lemma_least_in_found(col, weights, lo, hi - 1, v);
        let j = choose|j: int|
            lo <= j < hi - 1 && #[trigger] col[j] == v && weights[j] == before->0;
        assert(col[j] == v);
    }
    if col[hi - 1] == v {
        assert(col[hi - 1] == v);
    }
}

/// A slot that leads from `u` to `v` at the least weight.
proof fn lemma_pair_slot<C: Cost>(
    snap: CsrSnapshot,
    weights: Seq<C>,
    u: int,
    v: int,
) -> (k: int)
    requires
        snap.wf(),
        0 <= u < snap.n(),
        arc(snap.edges@, u, v),
    ensures
        in_row(snap, u, k),
        snap.col_idx@[k] == v,
        weights[k] == pair_weight(snap, weights, u, v),
{
    let lo = snap.row_ptr@[u] as int;
    let hi = snap.row_ptr@[u + 1] as int;
    let q = snap.lemma_arc_has_slot(u, v);
    lemma_least_in(snap.col_idx@, weights, lo, hi, v, q);
    choose|j: int|
        lo <= j < hi && #[trigger] snap.col_idx@[j] == v && weights[j] == least_in(
            snap.col_idx@,
            weights,
            lo,
            hi,
            v,
        )->0
}

/// A path is a walk of slots that costs what the path costs.
pub(crate) proof fn lemma_path_walk<C: Cost>(
    snap: CsrSnapshot,
    weights: Seq<C>,
    open: spec_fn(int, int) -> bool,
    p: Seq<int>,
) -> (ks: Seq<int>)
    requires
        snap.wf(),
        is_walk(snap.edges@, p),
        in_graph(snap, p),
        steps_open(open, p),
    ensures
        follows(snap, open, p[0], ks),
        walk_nodes(snap, p[0], ks) == p,
        walk_end(snap, p[0], ks) == p.last(),
        walk_cost(weights, ks) == path_cost(snap, weights, p),
    decreases p.len(),
{
    if p.len() == 1 {
        let ks = Seq::<int>::empty();
        assert(walk_nodes(snap, p[0], ks) =~= p);
        ks
    } else {
        let q = p.drop_last();
        let u = p[p.len() - 2];
        let v = p.last();
        assert(is_walk(snap.edges@, q)) by {
            assert forall|i: int| 0 <= i < q.len() - 1 implies arc(
                snap.edges@,
                #[trigger] q[i],
                q[i + 1],
            ) by {
                assert(arc(snap.edges@, p[i], p[i + 1]));
            }
        }
        assert(steps_open(open, q)) by {
            assert forall|i: int| 0 <= i < q.len() - 1 implies open(#[trigger] q[i], q[i + 1]) by {
                assert(open(p[i], p[i + 1]));
            }
        }
        assert forall|i: int| 0 <= i < q.len() implies 0 <= #[trigger] q[i] < snap.n() by {
            assert(0 <= p[i] < snap.n());
        }
        let rest = lemma_path_walk(snap, weights, open, q);
        let i = p.len() - 2;
        assert(arc(snap.edges@, p[i], p[i + 1]));
        assert(open(p[i], p[i + 1]));
        assert(0 <= p[i] < snap.n());
        let k = lemma_pair_slot(snap, weights, u, v);
        let ks = rest.push(k);
        assert(ks.drop_last() =~= rest);
        assert(walk_nodes(snap, p[0], ks) =~= p);
        ks
    }
}

/// The nodes of a walk of slots are a path that costs no more than the walk.
pub(crate) proof fn lemma_walk_path<C: Cost>(
    snap: CsrSnapshot,
    weights: Seq<C>,
    open: spec_fn(int, int) -> bool,
    s: int,
    ks: Seq<int>,
)
    requires
        snap.wf(),
        0 <= s < snap.n(),
        follows(snap, open, s, ks),
    ensures
        ({
            let p = walk_nodes(snap, s, ks);
            &&& is_walk(snap.edges@, p)
            &&& p.len() == ks.len() + 1
            &&& p[0] == s
            &&& p.last() == walk_end(snap, s, ks)
            &&& in_graph(snap, p)
            &&& steps_open(open, p)
            &&& path_cost(snap, weights, p).le(walk_cost(weights, ks))
        }),
    decreases ks.len(),
{
    let p = walk_nodes(snap, s, ks);
    C::law_order(C::zero(), C::zero(), C::zero());
    if ks.len() > 0 {
        let rest = ks.drop_last();
        let k = ks.last();
        lemma_walk_path(snap, weights, open, s, rest);
        let q = walk_nodes(snap, s, rest);
        let u = walk_end(snap, s, rest);
        let v = snap.col_idx@[k] as int;
        lemma_walk_in_range(snap, open, s, rest);
        lemma_walk_in_range(snap, open, s, ks);
        snap.lemma_slot_is_arc(u, k);
        assert(p.drop_last() =~= q);
        assert forall|i: int| 0 <= i < p.len() - 1 implies arc(
            snap.edges@,
            #[trigger] p[i],
            p[i + 1],
        ) && open(p[i], p[i + 1]) by {
            if i < q.len() - 1 {
                assert(arc(snap.edges@, q[i], q[i + 1]));
                assert(open(q[i], q[i + 1]));
            }
        }
        assert forall|i: int| 0 <= i < p.len() implies 0 <= #[trigger] p[i] < snap.n() by {
            if i < q.len() {
                assert(0 <= q[i] < snap.n());
            }
        }
        let lo = snap.row_ptr@[u] as int;
        let hi = snap.row_ptr@[u + 1] as int;
        lemma_least_in(snap.col_idx@, weights, lo, hi, v, k);
        let w = pair_weight(snap, weights, u, v);
        assert(w.le(weights[k]));
        let a = path_cost(snap, weights, q);
        let b = walk_cost(weights, rest);
        assert(p[p.len() - 2] == u);
        C::law_plus(a, b, weights[k]);
        C::law_plus(w, weights[k], a);
        C::law_order(a.plus(w), a.plus(weights[k]), b.plus(weights[k]));
    }
}

/// Where costs are exact, the cost of a path is the sum over its two parts.
proof fn lemma_path_cost_join<C: Cost>(
    snap: CsrSnapshot,
    weights: Seq<C>,
    a: Seq<int>,
    b: Seq<int>,
)
    requires
        C::exact(),
        a.len() > 0,
        b.len() > 0,
        a.last() == b[0],
    ensures
        path_cost(snap, weights, a + b.skip(1)) == path_cost(snap, weights, a).plus(
            path_cost(snap, weights, b),
        ),
    decreases b.len(),
{
    let whole = a + b.skip(1);
    if b.len() == 1 {
        assert(whole =~= a);
        C::law_exact(path_cost(snap, weights, a), C::zero(), C::zero());
    } else {
        let c = b.drop_last();
        assert(whole.drop_last() =~= a + c.skip(1));
        lemma_path_cost_join(snap, weights, a, c);
        let w = pair_weight(snap, weights, b[b.len() - 2], b.last());
        assert(whole[whole.len() - 2] == b[b.len() - 2]);
        C::law_exact(path_cost(snap, weights, a), path_cost(snap, weights, c), w);
    }
}

/// A path that was found, and its cost.
pub struct Found<C: Cost> {
    pub nodes: Vec<usize>,
    pub cost: C,
}

/// The nodes of a found path.
pub open spec fn nodes_of<C: Cost>(f: Found<C>) -> Seq<int> {
    f.nodes@.map_values(|v: usize| v as int)
}

fn weigh_pair<C: Cost>(snap: &CsrSnapshot, weights: &Vec<C>, u: usize, v: usize) -> (w: C)
    requires
        snap.wf(),
        weights@.len() == snap.edges@.len(),
        u < snap.n(),
    ensures
        w == pair_weight(*snap, weights@, u as int, v as int),
{
    let lo: usize = snap.row_ptr[u];
    let hi: usize = snap.row_ptr[u + 1];
    let mut least: Option<C> = None;
    let mut k: usize = lo;
    while k < hi
        invariant
            snap.wf(),
            weights@.len() == snap.edges@.len(),
            lo <= k <= hi <= snap.edges@.len(),
            least == least_in(snap.col_idx@, weights@, lo as int, k as int, v as int),
        decreases hi - k,
    {
        if snap.col_idx[k] as usize == v {
            let w: C = weights[k];
            least =
            match least {
                None => Some(w),
                Some(c) => if w.less(&c) {
                    Some(w)
                } else {
                    Some(c)
                },
            };
        }
        k = k + 1;
    }
    match least {
        Some(w) => w,
        None => C::unit_cost(),
    }
}

fn cost_of_root<C: Cost>(snap: &CsrSnapshot, weights: &Vec<C>, nodes: &Vec<usize>, j: usize) -> (c:
    C)
    requires
        snap.wf(),
        weights@.len() == snap.edges@.len(),
        j < nodes@.len(),
        forall|i: int| 0 <= i < nodes@.len() ==> (#[trigger] nodes@[i]) < snap.n(),
    ensures
        c == path_cost(*snap, weights@, nodes@.map_values(|v: usize| v as int).take(j + 1)),
{
    let ghost p = nodes@.map_values(|v: usize| v as int);
    let mut cost: C = C::zero_cost();
    let mut i: usize = 0;
    while i < j
        invariant
            snap.wf(),
            weights@.len() == snap.edges@.len(),
            i <= j < nodes@.len(),
            p == nodes@.map_values(|v: usize| v as int),
            forall|x: int| 0 <= x < nodes@.len() ==> (#[trigger] nodes@[x]) < snap.n(),
            cost == path_cost(*snap, weights@, p.take(i + 1)),
        decreases j - i,
    {
        proof {
            assert(p.take(i + 2).drop_last() =~= p.take(i + 1));
            assert(p.take(i + 2)[i as int] == p[i as int]);
            assert(p.take(i + 2).last() == p[i + 1]);
        }
        let w: C = weigh_pair(snap, weights, nodes[i], nodes[i + 1]);
        cost = cost.added(&w);
        i = i + 1;
    }
    cost
}

/// The walks that a cheapest path is held against: all of them, or, where a weight is
/// negative and going round a cycle may pay, those that visit no node twice.
pub open spec fn rival<C: Cost>(
    snap: CsrSnapshot,
    weights: Seq<C>,
    s: int,
    ks: Seq<int>,
) -> bool {
    some_negative(weights) ==> walk_nodes(snap, s, ks).no_duplicates()
}

/// `f` is a cheapest path from `s` to `t` over admitted steps.
pub open spec fn cheapest_open<C: Cost>(
    snap: CsrSnapshot,
    weights: Seq<C>,
    open: spec_fn(int, int) -> bool,
    s: int,
    t: int,
    f: Found<C>,
) -> bool {
    &&& nodes_of(f).no_duplicates()
    &&& f.cost.bounded()
    &&& exists|ks: Seq<int>|
        #[trigger] follows(snap, open, s, ks) && walk_end(snap, s, ks) == t && walk_nodes(
            snap,
            s,
            ks,
        ) == nodes_of(f) && walk_cost(weights, ks) == f.cost
    &&& forall|ks: Seq<int>|
        #[trigger] follows(snap, open, s, ks) && walk_end(snap, s, ks) == t && rival(
            snap,
            weights,
            s,
            ks,
        ) && walk_cost(weights, ks).bounded() ==> f.cost.le(walk_cost(weights, ks))
}

/// No walk of bounded cost leads from `s` to `t` over admitted steps, or, where a weight
/// is negative, none that visits no node twice.
pub open spec fn none_open<C: Cost>(
    snap: CsrSnapshot,
    weights: Seq<C>,
    open: spec_fn(int, int) -> bool,
    s: int,
    t: int,
) -> bool {
    forall|ks: Seq<int>|
        #[trigger] follows(snap, open, s, ks) && walk_end(snap, s, ks) == t && rival(
            snap,
            weights,
            s,
            ks,
        ) ==> !walk_cost(weights, ks).bounded()
}

/// What a search for a cheapest path comes back with.
pub open spec fn finds<C: Cost>(
    snap: CsrSnapshot,
    weights: Seq<C>,
    open: spec_fn(int, int) -> bool,
    s: int,
    t: int,
    found: Option<Found<C>>,
) -> bool {
    match found {
        Some(f) => cheapest_open(snap, weights, open, s, t, f),
        None => none_open(snap, weights, open, s, t),
    }
}

/// A cheapest path from `s` to `t` that avoids nodes and pairs, where no weight is
/// negative.
#[verifier::rlimit(60)]
#[verifier::spinoff_prover]
fn cheapest_by_heap<C: Cost>(
    snap: &CsrSnapshot,
    weights: &Vec<C>,
    s: usize,
    t: usize,
    blocked_nodes: &ahash::AHashSet<u64>,
    blocked_pairs: &ahash::AHashSet<(u64, u64)>,
) -> (r: Option<Found<C>>)
    requires
        snap.wf(),
        weights@.len() == snap.edges@.len(),
        forall|k: int| 0 <= k < weights@.len() ==> C::zero().le(#[trigger] weights@[k]),
        s < snap.n(),
        t < snap.n(),
    ensures
        finds(
            *snap,
            weights@,
            around(ids_in(*blocked_nodes), pairs_in(*blocked_pairs)),
            s as int,
            t as int,
            r,
        ),
{
    let ghost open = around(ids_in(*blocked_nodes), pairs_in(*blocked_pairs));
    let tree: Tree<C> = cheapest_walks(snap, weights, s, blocked_nodes, blocked_pairs);
    let cost: C = match tree.dist[t] {
        None => {
            return None;
        },
        Some(c) => c,
    };
    let nodes: Vec<usize> = tree_path(snap, Ghost(weights@), Ghost(open), &tree, s, t);
    let f = Found { nodes, cost };
    proof {
        let n = snap.n();
        let ks = tree_walk(tree, s as int, t as int, n);
        lemma_distinct_bound(tree.order@, n);
        assert(tree.order@.contains(t as int));
        lemma_tree_walk(*snap, weights@, open, s as int, tree, t as int, n);
        assert(nodes_of(f) =~= as_nodes(nodes@));
        assert(follows(*snap, open, s as int, ks));
    }
    Some(f)
}

/// A cheapest path from `s` to `t` that avoids nodes and pairs, where some weight is
/// negative: by rounds of relaxation, or, where going round a cycle on the way pays, by
/// trying every simple path.
fn cheapest_by_rounds<C: Cost>(
    snap: &CsrSnapshot,
    weights: &Vec<C>,
    live: &Vec<bool>,
    s: usize,
    t: usize,
    blocked_nodes: &ahash::AHashSet<u64>,
    blocked_pairs: &ahash::AHashSet<(u64, u64)>,
) -> (r: Option<Found<C>>)
    requires
        snap.wf(),
        weights@.len() == snap.edges@.len(),
        s < snap.n(),
        t < snap.n(),
        live_towards(*snap, t as int, live@),
        some_negative(weights@),
    ensures
        finds(
            *snap,
            weights@,
            around(ids_in(*blocked_nodes), pairs_in(*blocked_pairs)),
            s as int,
            t as int,
            r,
        ),
{
    let ghost (nodes, pairs) = (ids_in(*blocked_nodes), pairs_in(*blocked_pairs));
    let ghost open = around(nodes, pairs);
    let ghost narrow = onward(nodes, pairs, live@);
    proof {
        assert forall|ks: Seq<int>|
            #[trigger] follows(*snap, open, s as int, ks) && walk_end(*snap, s as int, ks)
                == t implies follows(*snap, narrow, s as int, ks) by {
            lemma_onward(*snap, nodes, pairs, t as int, live@, s as int, ks);
        }
    }
    let found: Option<(Vec<usize>, C)> = match settled(
        snap,
        weights,
        s,
        blocked_nodes,
        blocked_pairs,
        live,
    ) {
        None => cheapest_simple(snap, weights, s, t, blocked_nodes, blocked_pairs, live),
        Some(mut labels) => match labels.dist[t] {
            None => None,
            Some(c) => {
                let ghost ks = labels.slots@[t as int];
                let ghost path = labels.paths@[t as int]@;
                assert(labelled(
                    *snap,
                    weights@,
                    narrow,
                    s as int,
                    labels.dist@,
                    path,
                    ks,
                    t as int,
                ));
                let p: Vec<usize> = labels.paths.swap_remove(t);
                proof {
                    assert(p@ == path);
                    assert(simple_to(*snap, weights@, narrow, s as int, t as int, ks));
                    assert(simple_at(
                        *snap,
                        weights@,
                        narrow,
                        s as int,
                        t as int,
                        as_nodes(p@),
                        c,
                    ));
                }
                Some((p, c))
            },
        },
    };
    proof {
        assert forall|ks: Seq<int>|
            #[trigger] follows(*snap, open, s as int, ks) && walk_end(*snap, s as int, ks) == t
                && rival(*snap, weights@, s as int, ks) && walk_cost(
                weights@,
                ks,
            ).bounded() implies beaten(found, walk_cost(weights@, ks)) by {
            assert(follows(*snap, narrow, s as int, ks));
            assert(simple_to(*snap, weights@, narrow, s as int, t as int, ks));
        }
    }
    match found {
        None => None,
        Some((nodes, cost)) => {
            let f = Found { nodes, cost };
            proof {
                assert(nodes_of(f) =~= as_nodes(nodes@));
                let ks = choose|ks: Seq<int>|
                    #[trigger] simple_to(*snap, weights@, narrow, s as int, t as int, ks)
                        && walk_nodes(*snap, s as int, ks) == as_nodes(nodes@) && walk_cost(
                        weights@,
                        ks,
                    ) == cost;
                lemma_follows_more(*snap, narrow, open, s as int, ks);
                assert(follows(*snap, open, s as int, ks));
            }
            Some(f)
        },
    }
}

/// What the searches towards `t` need to know where a weight is negative: the nodes
/// from which `t` can be reached.
spec fn prepared<C: Cost>(
    snap: CsrSnapshot,
    weights: Seq<C>,
    t: int,
    live: Option<Vec<bool>>,
) -> bool {
    &&& live is Some <==> some_negative(weights)
    &&& live matches Some(marks) ==> live_towards(snap, t, marks@)
}

/// A cheapest path from `s` to `t` that avoids nodes and pairs.
fn find_cheapest<C: Cost>(
    snap: &CsrSnapshot,
    weights: &Vec<C>,
    live: &Option<Vec<bool>>,
    s: usize,
    t: usize,
    blocked_nodes: &ahash::AHashSet<u64>,
    blocked_pairs: &ahash::AHashSet<(u64, u64)>,
) -> (r: Option<Found<C>>)
    requires
        snap.wf(),
        weights@.len() == snap.edges@.len(),
        prepared(*snap, weights@, t as int, *live),
        s < snap.n(),
        t < snap.n(),
    ensures
        finds(
            *snap,
            weights@,
            around(ids_in(*blocked_nodes), pairs_in(*blocked_pairs)),
            s as int,
            t as int,
            r,
        ),
{
    match live {
        Some(marks) => cheapest_by_rounds(
            snap,
            weights,
            marks,
            s,
            t,
            blocked_nodes,
            blocked_pairs,
        ),
        None => {
            proof {
                assert forall|k: int| 0 <= k < weights@.len() implies C::zero().le(
                    #[trigger] weights@[k],
                ) by {}
            }
            cheapest_by_heap(snap, weights, s, t, blocked_nodes, blocked_pairs)
        },
    }
}

/// `p` and `q` agree on their first `j + 1` nodes.
pub open spec fn shares_root(p: Seq<int>, q: Seq<int>, j: int) -> bool {
    p.len() > j && q.len() > j && p.take(j + 1) == q.take(j + 1)
}

/// `q` leaves path `a` after its first `j + 1` nodes, by a step that none of the
/// paths up to `a` takes from there.
pub open spec fn deviates<C: Cost>(paths: Seq<Found<C>>, a: int, j: int, q: Seq<int>) -> bool {
    &&& q.len() > j + 1
    &&& shares_root(nodes_of(paths[a]), q, j)
    &&& forall|b: int|
        #![trigger paths[b]]
        0 <= b <= a && shares_root(nodes_of(paths[b]), q, j) && nodes_of(paths[b]).len() > j + 1
            ==> nodes_of(paths[b])[j + 1] != q[j + 1]
}

/// `c` is a candidate, or a path that was picked after path `a`.
pub open spec fn standing<C: Cost>(
    paths: Seq<Found<C>>,
    candidates: Seq<Found<C>>,
    a: int,
    c: Found<C>,
) -> bool {
    candidates.contains(c) || exists|b: int| a < b < paths.len() && #[trigger] paths[b] == c
}

/// Every path that leaves path `a` after `j + 1` nodes in a new way is matched by
/// a standing one with the same root that is no more expensive.
pub open spec fn spur_covered<C: Cost>(
    snap: CsrSnapshot,
    weights: Seq<C>,
    s: int,
    t: int,
    paths: Seq<Found<C>>,
    candidates: Seq<Found<C>>,
    a: int,
    j: int,
) -> bool {
    forall|q: Seq<int>|
        #[trigger] simple_path(snap.edges@, s, t, q) && path_cost(snap, weights, q).bounded()
            && deviates(paths, a, j, q) ==> exists|c: Found<C>|
            #[trigger] standing(paths, candidates, a, c) && shares_root(nodes_of(c), q, j)
                && path_cost(snap, weights, nodes_of(c)).le(path_cost(snap, weights, q))
}

/// All spurs of the first `done` paths are covered.
pub open spec fn all_covered<C: Cost>(
    snap: CsrSnapshot,
    weights: Seq<C>,
    s: int,
    t: int,
    paths: Seq<Found<C>>,
    candidates: Seq<Found<C>>,
    done: int,
) -> bool {
    forall|a: int, j: int|
        0 <= a < done && 0 <= j < nodes_of(paths[a]).len() - 1 ==> #[trigger] spur_covered(
            snap,
            weights,
            s,
            t,
            paths,
            candidates,
            a,
            j,
        )
}

/// Paths of a list are simple paths between the ends, and cost what paths cost
/// where costs are exact.
pub open spec fn all_proper<C: Cost>(
    snap: CsrSnapshot,
    weights: Seq<C>,
    s: int,
    t: int,
    list: Seq<Found<C>>,
) -> bool {
    forall|i: int|
        0 <= i < list.len() ==> proper(snap, weights, s, t, #[trigger] list[i])
}

/// A simple path between the ends that costs what it says.
pub open spec fn proper<C: Cost>(
    snap: CsrSnapshot,
    weights: Seq<C>,
    s: int,
    t: int,
    f: Found<C>,
) -> bool {
    &&& simple_path(snap.edges@, s, t, nodes_of(f))
    &&& in_graph(snap, nodes_of(f))
    &&& C::exact() ==> f.cost == path_cost(snap, weights, nodes_of(f))
}

/// No two paths of the two lists are the same.
pub open spec fn all_distinct<C: Cost>(paths: Seq<Found<C>>, candidates: Seq<Found<C>>) -> bool {
    &&& forall|i: int, j: int|
        #![trigger paths[i], paths[j]]
        0 <= i < j < paths.len() ==> nodes_of(paths[i]) != nodes_of(paths[j])
    &&& forall|i: int, j: int|
        #![trigger candidates[i], candidates[j]]
        0 <= i < j < candidates.len() ==> nodes_of(candidates[i]) != nodes_of(candidates[j])
    &&& forall|i: int, j: int|
        #![trigger paths[i], candidates[j]]
        0 <= i < paths.len() && 0 <= j < candidates.len() ==> nodes_of(paths[i]) != nodes_of(
            candidates[j],
        )
}

/// What was covered stays covered while nothing standing is lost.
proof fn lemma_covered_keeps<C: Cost>(
    snap: CsrSnapshot,
    weights: Seq<C>,
    s: int,
    t: int,
    paths: Seq<Found<C>>,
    candidates: Seq<Found<C>>,
    paths2: Seq<Found<C>>,
    candidates2: Seq<Found<C>>,
    a: int,
    j: int,
)
    requires
        0 <= a < paths.len(),
        paths.len() <= paths2.len(),
        forall|b: int| 0 <= b < paths.len() ==> #[trigger] paths2[b] == paths[b],
        forall|c: Found<C>|
            candidates.contains(c) ==> #[trigger] standing(paths2, candidates2, a, c),
        spur_covered(snap, weights, s, t, paths, candidates, a, j),
    ensures
        spur_covered(snap, weights, s, t, paths2, candidates2, a, j),
{
    assert forall|q: Seq<int>|
        #[trigger] simple_path(snap.edges@, s, t, q) && path_cost(snap, weights, q).bounded()
            && deviates(paths2, a, j, q) implies exists|c: Found<C>|
        #[trigger] standing(paths2, candidates2, a, c) && shares_root(nodes_of(c), q, j)
            && path_cost(snap, weights, nodes_of(c)).le(path_cost(snap, weights, q)) by {
        assert(deviates(paths, a, j, q)) by {
            assert(paths2[a] == paths[a]);
            assert forall|b: int|
                #![trigger paths[b]]
                0 <= b <= a && shares_root(nodes_of(paths[b]), q, j) && nodes_of(paths[b]).len()
                    > j + 1 implies nodes_of(paths[b])[j + 1] != q[j + 1] by {
                assert(paths2[b] == paths[b]);
            }
        }
        let c = choose|c: Found<C>|
            #[trigger] standing(paths, candidates, a, c) && shares_root(nodes_of(c), q, j)
                && path_cost(snap, weights, nodes_of(c)).le(path_cost(snap, weights, q));
        if !candidates.contains(c) {
            let b = choose|b: int| a < b < paths.len() && #[trigger] paths[b] == c;
            assert(paths2[b] == c);
        }
        assert(standing(paths2, candidates2, a, c));
    }
}

/// Two simple paths to the same end, neither of which has left the other, are one.
proof fn lemma_same_path(
    edges: Seq<Edge>,
    s: int,
    t: int,
    p: Seq<int>,
    q: Seq<int>,
    j: int,
)
    requires
        simple_path(edges, s, t, p),
        simple_path(edges, s, t, q),
        0 <= j,
        shares_root(p, q, j),
        p.len() == j + 1 || q.len() == j + 1,
    ensures
        p == q,
{
    assert(p.take(j + 1)[j] == q.take(j + 1)[j]);
    assert(p[j] == q[j]);
    if p.len() == j + 1 {
        assert(q[j] == t);
        assert(q[q.len() - 1] == t);
        assert(q.len() == j + 1);
    } else {
        assert(p[j] == t);
        assert(p[p.len() - 1] == t);
        assert(p.len() == j + 1);
    }
    assert(p =~= p.take(j + 1));
    assert(q =~= q.take(j + 1));
}

/// The length of the longest root that `q` shares with one of the first `m` paths,
/// and the last path that shares it.
proof fn lemma_longest_root<C: Cost>(paths: Seq<Found<C>>, q: Seq<int>, m: int) -> (r: (int, int))
    requires
        0 < m <= paths.len(),
        q.len() > 0,
        forall|a: int|
            0 <= a < m ==> nodes_of(#[trigger] paths[a]).len() > 0 && nodes_of(paths[a])[0] == q[0],
    ensures
        0 <= r.0 < m,
        r.1 >= 0,
        shares_root(nodes_of(paths[r.0]), q, r.1),
        forall|b: int, i: int|
            #![trigger shares_root(nodes_of(paths[b]), q, i)]
            0 <= b < m && i >= 0 && shares_root(nodes_of(paths[b]), q, i) ==> i < r.1 || (i == r.1
                && b <= r.0),
    decreases m,
{
    let p = nodes_of(paths[m - 1]);
    let i = lemma_common(p, q);
    if m == 1 {
        (0, i)
    } else {
        let (b, j) = lemma_longest_root(paths, q, m - 1);
        if i >= j {
            (m - 1, i)
        } else {
            (b, j)
        }
    }
}

/// The length of the root that two paths share.
proof fn lemma_common(p: Seq<int>, q: Seq<int>) -> (i: int)
    requires
        p.len() > 0,
        q.len() > 0,
        p[0] == q[0],
    ensures
        i >= 0,
        shares_root(p, q, i),
        forall|k: int| k >= 0 && #[trigger] shares_root(p, q, k) ==> k <= i,
{
    assert(p.take(1) =~= q.take(1));
    lemma_common_from(p, q, 0)
}

proof fn lemma_common_from(p: Seq<int>, q: Seq<int>, from: int) -> (i: int)
    requires
        from >= 0,
        shares_root(p, q, from),
    ensures
        i >= from,
        shares_root(p, q, i),
        forall|k: int| k >= 0 && #[trigger] shares_root(p, q, k) ==> k <= i,
    decreases p.len() - from,
{
    let next = from + 1;
    if p.len() > next && q.len() > next && p[next] == q[next] {
        assert(p.take(next + 1) =~= q.take(next + 1)) by {
            assert forall|x: int| 0 <= x < next + 1 implies p[x] == q[x] by {
                if x < next {
                    assert(p.take(from + 1)[x] == q.take(from + 1)[x]);
                }
            }
        }
        lemma_common_from(p, q, next)
    } else {
        assert forall|k: int| k >= 0 && #[trigger] shares_root(p, q, k) implies k <= from by {
            if k > from {
                assert(p.take(k + 1)[next] == q.take(k + 1)[next]);
            }
        }
        from
    }
}

/// Where all spurs are covered, every path that was not picked is matched by a
/// candidate that is no more expensive.
proof fn lemma_cover<C: Cost>(
    snap: CsrSnapshot,
    weights: Seq<C>,
    s: int,
    t: int,
    paths: Seq<Found<C>>,
    candidates: Seq<Found<C>>,
    q: Seq<int>,
) -> (c: Found<C>)
    requires
        paths.len() > 0,
        all_proper(snap, weights, s, t, paths),
        all_covered(snap, weights, s, t, paths, candidates, paths.len() as int),
        simple_path(snap.edges@, s, t, q),
        path_cost(snap, weights, q).bounded(),
        forall|a: int| 0 <= a < paths.len() ==> nodes_of(#[trigger] paths[a]) != q,
    ensures
        candidates.contains(c),
        path_cost(snap, weights, nodes_of(c)).le(path_cost(snap, weights, q)),
{
    assert forall|a: int| 0 <= a < paths.len() implies nodes_of(#[trigger] paths[a]).len() > 0
        && nodes_of(paths[a])[0] == q[0] by {
        assert(proper(snap, weights, s, t, paths[a]));
    }
    let (a, j) = lemma_longest_root(paths, q, paths.len() as int);
    let p = nodes_of(paths[a]);
    assert(proper(snap, weights, s, t, paths[a]));
    if p.len() == j + 1 || q.len() == j + 1 {
        lemma_same_path(snap.edges@, s, t, p, q, j);
    }
    assert(deviates(paths, a, j, q)) by {
        assert forall|b: int|
            #![trigger paths[b]]
            0 <= b <= a && shares_root(nodes_of(paths[b]), q, j) && nodes_of(paths[b]).len() > j
                + 1 implies nodes_of(paths[b])[j + 1] != q[j + 1] by {
            let pb = nodes_of(paths[b]);
            if pb[j + 1] == q[j + 1] {
                assert(pb.take(j + 2) =~= q.take(j + 2)) by {
                    assert forall|x: int| 0 <= x < j + 2 implies pb[x] == q[x] by {
                        if x < j + 1 {
                            assert(pb.take(j + 1)[x] == q.take(j + 1)[x]);
                        }
                    }
                }
                assert(shares_root(nodes_of(paths[b]), q, j + 1));
            }
        }
    }
    assert(spur_covered(snap, weights, s, t, paths, candidates, a, j));
    let c = choose|c: Found<C>|
        #[trigger] standing(paths, candidates, a, c) && shares_root(nodes_of(c), q, j)
            && path_cost(snap, weights, nodes_of(c)).le(path_cost(snap, weights, q));
    if !candidates.contains(c) {
        let b = choose|b: int| a < b < paths.len() && #[trigger] paths[b] == c;
        assert(shares_root(nodes_of(paths[b]), q, j));
    }
    c
}

/// Whether two lists of nodes are equal.
fn same_nodes(a: &Vec<usize>, b: &Vec<usize>) -> (r: bool)
    ensures
        r == (a@ == b@),
{
    if a.len() != b.len() {
        return false;
    }
    let mut i: usize = 0;
    while i < a.len()
        invariant
            i <= a@.len(),
            a@.len() == b@.len(),
            forall|k: int| 0 <= k < i ==> a@[k] == b@[k],
        decreases a@.len() - i,
    {
        if a[i] != b[i] {
            return false;
        }
        i = i + 1;
    }
    assert(a@ =~= b@);
    true
}

/// Whether two lists of nodes agree on their first `j + 1` items.
fn same_root(a: &Vec<usize>, b: &Vec<usize>, j: usize) -> (r: bool)
    requires
        j < b@.len(),
    ensures
        r == (a@.len() > j && a@.take(j + 1) == b@.take(j + 1)),
{
    if a.len() <= j {
        return false;
    }
    let mut i: usize = 0;
    while i <= j
        invariant
            i <= j + 1 <= usize::MAX,
            j < a@.len(),
            j < b@.len(),
            forall|k: int| 0 <= k < i ==> a@[k] == b@[k],
        decreases j + 1 - i,
    {
        if a[i] != b[i] {
            assert(a@.take(j + 1)[i as int] != b@.take(j + 1)[i as int]);
            return false;
        }
        i = i + 1;
    }
    assert(a@.take(j + 1) =~= b@.take(j + 1));
    true
}

proof fn lemma_nodes_injective<C: Cost>(f: Found<C>, g: Found<C>)
    ensures
        nodes_of(f) == nodes_of(g) <==> f.nodes@ == g.nodes@,
{
    assert(nodes_of(f).len() == f.nodes@.len() && nodes_of(g).len() == g.nodes@.len());
    if nodes_of(f) == nodes_of(g) {
        assert(f.nodes@.len() == g.nodes@.len());
        assert forall|i: int| 0 <= i < f.nodes@.len() implies f.nodes@[i] == g.nodes@[i] by {
            assert(nodes_of(f)[i] == nodes_of(g)[i]);
        }
        assert(f.nodes@ =~= g.nodes@);
    }
}

proof fn lemma_roots_agree<C: Cost>(f: Found<C>, g: Found<C>, j: int)
    requires
        0 <= j < g.nodes@.len(),
    ensures
        shares_root(nodes_of(f), nodes_of(g), j) <==> f.nodes@.len() > j && f.nodes@.take(j + 1)
            == g.nodes@.take(j + 1),
{
    if f.nodes@.len() > j {
        if f.nodes@.take(j + 1) == g.nodes@.take(j + 1) {
            assert forall|i: int| 0 <= i < j + 1 implies nodes_of(f)[i] == nodes_of(g)[i] by {
                assert(f.nodes@.take(j + 1)[i] == g.nodes@.take(j + 1)[i]);
            }
            assert(nodes_of(f).take(j + 1) =~= nodes_of(g).take(j + 1));
        }
        if nodes_of(f).take(j + 1) == nodes_of(g).take(j + 1) {
            assert forall|i: int| 0 <= i < j + 1 implies f.nodes@[i] == g.nodes@[i] by {
                assert(nodes_of(f).take(j + 1)[i] == nodes_of(g).take(j + 1)[i]);
            }
            assert(f.nodes@.take(j + 1) =~= g.nodes@.take(j + 1));
        }
    }
}

/// Path `b` shares the root and goes on from `x` to `y`.
pub open spec fn takes<C: Cost>(
    paths: Seq<Found<C>>,
    root: Seq<int>,
    j: int,
    b: int,
    x: u64,
    y: u64,
) -> bool {
    shares_root(nodes_of(paths[b]), root, j) && nodes_of(paths[b])[j] == x && nodes_of(
        paths[b],
    )[j + 1] == y
}

/// One of the first `m` paths shares the root and goes on from `x` to `y`.
pub open spec fn some_takes<C: Cost>(
    paths: Seq<Found<C>>,
    root: Seq<int>,
    j: int,
    m: int,
    x: u64,
    y: u64,
) -> bool {
    exists|b: int| 0 <= b < m && #[trigger] takes(paths, root, j, b, x, y)
}

proof fn lemma_some_takes<C: Cost>(
    paths: Seq<Found<C>>,
    root: Seq<int>,
    j: int,
    m: int,
    x: u64,
    y: u64,
)
    requires
        m >= 0,
    ensures
        some_takes(paths, root, j, m + 1, x, y) <==> some_takes(paths, root, j, m, x, y) || takes(
            paths,
            root,
            j,
            m,
            x,
            y,
        ),
{
    if some_takes(paths, root, j, m, x, y) {
        let b = choose|b: int| 0 <= b < m && #[trigger] takes(paths, root, j, b, x, y);
        assert(takes(paths, root, j, b, x, y));
    }
}

/// The steps that a spur may take: not into the root, and not along a step that
/// one of the paths takes after the same root.
pub open spec fn spur_open<C: Cost>(
    paths: Seq<Found<C>>,
    a: int,
    j: int,
    nodes: Set<u64>,
    pairs: Set<(u64, u64)>,
) -> bool {
    let root = nodes_of(paths[a]);
    &&& forall|x: u64|
        #[trigger] nodes.contains(x) <==> exists|i: int| 0 <= i < j && #[trigger] root[i] == x
    &&& forall|x: u64, y: u64|
        #[trigger] pairs.contains((x, y)) <==> some_takes(paths, root, j, a + 1, x, y)
}

/// The pairs that the first `m` paths take after a root.
pub open spec fn taken<C: Cost>(
    paths: Seq<Found<C>>,
    root: Seq<int>,
    j: int,
    m: int,
    pairs: Set<(u64, u64)>,
) -> bool {
    forall|x: u64, y: u64|
        #[trigger] pairs.contains((x, y)) <==> some_takes(paths, root, j, m, x, y)
}

proof fn lemma_block_more<C: Cost>(
    paths: Seq<Found<C>>,
    root: Seq<int>,
    j: int,
    m: int,
    pairs: Set<(u64, u64)>,
    x: u64,
    y: u64,
)
    requires
        m >= 0,
        taken(paths, root, j, m, pairs),
        takes(paths, root, j, m, x, y),
    ensures
        taken(paths, root, j, m + 1, pairs.insert((x, y))),
{
    assert forall|u: u64, v: u64| #[trigger] pairs.insert((x, y)).contains((u, v)) <==> some_takes(
        paths,
        root,
        j,
        m + 1,
        u,
        v,
    ) by {
        lemma_some_takes(paths, root, j, m, u, v);
        assert(pairs.contains((u, v)) <==> some_takes(paths, root, j, m, u, v));
    }
}

proof fn lemma_block_same<C: Cost>(
    paths: Seq<Found<C>>,
    root: Seq<int>,
    j: int,
    m: int,
    pairs: Set<(u64, u64)>,
)
    requires
        m >= 0,
        taken(paths, root, j, m, pairs),
        !shares_root(nodes_of(paths[m]), root, j),
    ensures
        taken(paths, root, j, m + 1, pairs),
{
    assert forall|u: u64, v: u64| #[trigger] pairs.contains((u, v)) <==> some_takes(
        paths,
        root,
        j,
        m + 1,
        u,
        v,
    ) by {
        lemma_some_takes(paths, root, j, m, u, v);
    }
}

/// Where path `b` shares the root of path `a` it goes on after it.
pub open spec fn goes_on<C: Cost>(paths: Seq<Found<C>>, a: int, b: int, j: int) -> bool {
    let (f, g) = (paths[b].nodes@, paths[a].nodes@);
    &&& shares_root(nodes_of(paths[b]), nodes_of(paths[a]), j) <==> f.len() > j && f.take(j + 1)
        == g.take(j + 1)
    &&& f.len() > j && f.take(j + 1) == g.take(j + 1) ==> f.len() > j + 1
}

/// A path that shares a root with a path that goes on goes on as well.
proof fn lemma_next_exists<C: Cost>(
    snap: CsrSnapshot,
    weights: Seq<C>,
    s: int,
    t: int,
    paths: Seq<Found<C>>,
    a: int,
    b: int,
    j: int,
)
    requires
        all_proper(snap, weights, s, t, paths),
        0 <= a < paths.len(),
        0 <= b < paths.len(),
        0 <= j,
        j + 1 < paths[a].nodes@.len(),
    ensures
        goes_on(paths, a, b, j),
{
    lemma_roots_agree(paths[b], paths[a], j);
    assert(proper(snap, weights, s, t, paths[b]));
    assert(proper(snap, weights, s, t, paths[a]));
    let pb = nodes_of(paths[b]);
    let pa = nodes_of(paths[a]);
    if shares_root(pb, pa, j) && pb.len() == j + 1 {
        lemma_same_path(snap.edges@, s, t, pb, pa, j);
    }
}

/// Blocks what the spur of path `a` at position `j` must keep away from.
fn block<C: Cost>(
    paths: &Vec<Found<C>>,
    a: usize,
    j: usize,
) -> (r: (ahash::AHashSet<u64>, ahash::AHashSet<(u64, u64)>))
    requires
        a + 1 == paths@.len(),
        j + 1 < paths@[a as int].nodes@.len(),
        forall|b: int| 0 <= b <= a ==> #[trigger] goes_on(paths@, a as int, b, j as int),
    ensures
        spur_open(paths@, a as int, j as int, ids_in(r.0), pairs_in(r.1)),
{
    let ghost root = nodes_of(paths@[a as int]);
    let mut nodes: ahash::AHashSet<u64> = new_ids();
    let mut pairs: ahash::AHashSet<(u64, u64)> = new_pairs();
    let mut i: usize = 0;
    while i < j
        invariant
            i <= j,
            a < paths@.len(),
            j + 1 < paths@[a as int].nodes@.len(),
            root == nodes_of(paths@[a as int]),
            forall|x: u64|
                #[trigger] ids_in(nodes).contains(x) <==> exists|k: int|
                    0 <= k < i && #[trigger] root[k] == x,
        decreases j - i,
    {
        let v: usize = paths[a].nodes[i];
        let ghost before = ids_in(nodes);
        let new: bool = insert_id(&mut nodes, v as u64);
        proof {
            assert(root[i as int] == v);
            assert forall|x: u64| #[trigger] ids_in(nodes).contains(x) <==> exists|k: int|
                0 <= k < i + 1 && #[trigger] root[k] == x by {
                if before.contains(x) {
                    let k = choose|k: int| 0 <= k < i && #[trigger] root[k] == x;
                    assert(root[k] == x);
                }
                if exists|k: int| 0 <= k < i + 1 && #[trigger] root[k] == x {
                    let k = choose|k: int| 0 <= k < i + 1 && #[trigger] root[k] == x;
                    if k < i {
                        assert(before.contains(x));
                    }
                }
            }
        }
        i = i + 1;
    }
    let mut b: usize = 0;
    while b <= a
        invariant
            b <= a + 1,
            a + 1 == paths@.len(),
            j + 1 < paths@[a as int].nodes@.len(),
            root == nodes_of(paths@[a as int]),
            forall|k: int| 0 <= k <= a ==> #[trigger] goes_on(paths@, a as int, k, j as int),
            taken(paths@, root, j as int, b as int, pairs_in(pairs)),
        decreases a + 1 - b,
    {
        let ghost before = pairs_in(pairs);
        proof {
            assert(goes_on(paths@, a as int, b as int, j as int));
            assert(b < paths.len());
            assert(j + 1 < paths@[a as int].nodes.len());
        }
        if same_root(&paths[b].nodes, &paths[a].nodes, j) {
            let x: usize = paths[b].nodes[j];
            let y: usize = paths[b].nodes[j + 1];
            insert_pair(&mut pairs, x as u64, y as u64);
            proof {
                lemma_block_more(paths@, root, j as int, b as int, before, x as u64, y as u64);
            }
        } else {
            proof {
                lemma_block_same(paths@, root, j as int, b as int, before);
            }
        }
        b = b + 1;
    }
    (nodes, pairs)
}

/// A root and a spur from its last node that keeps away from the root make a
/// simple path.
proof fn lemma_joined(
    snap: CsrSnapshot,
    s: int,
    t: int,
    prev: Seq<int>,
    j: int,
    blocked: Set<u64>,
    tail: Seq<int>,
)
    requires
        simple_path(snap.edges@, s, t, prev),
        in_graph(snap, prev),
        snap.n() < u32::MAX,
        0 <= j,
        j + 1 < prev.len(),
        forall|i: int| 0 <= i < j ==> blocked.contains(#[trigger] prev[i] as u64),
        is_walk(snap.edges@, tail),
        in_graph(snap, tail),
        tail.no_duplicates(),
        tail[0] == prev[j],
        tail.last() == t,
        forall|i: int| 0 < i < tail.len() ==> !blocked.contains(#[trigger] tail[i] as u64),
    ensures
        ({
            let whole = prev.take(j + 1) + tail.skip(1);
            &&& simple_path(snap.edges@, s, t, whole)
            &&& in_graph(snap, whole)
            &&& shares_root(whole, prev, j)
            &&& whole.len() == j + tail.len()
            &&& forall|i: int| 0 <= i < tail.len() ==> whole[j + i] == #[trigger] tail[i]
        }),
        tail.len() >= 2,
{
    let whole = prev.take(j + 1) + tail.skip(1);
    if tail.len() == 1 {
        assert(prev[j] == t);
        assert(prev[prev.len() - 1] == t);
    }
    assert forall|i: int| 0 <= i < whole.len() implies whole[i] == (if i <= j {
        prev[i]
    } else {
        tail[i - j]
    }) by {}
    assert(whole.no_duplicates()) by {
        assert forall|x: int, y: int| 0 <= x < y < whole.len() implies whole[x] != whole[y] by {
            if y <= j {
                assert(prev[x] != prev[y]);
            } else if x >= j {
                assert(tail[x - j] != tail[y - j]);
            } else {
                assert(blocked.contains(prev[x] as u64));
                assert(!blocked.contains(tail[y - j] as u64));
            }
        }
    }
    assert(is_walk(snap.edges@, whole)) by {
        assert forall|i: int| 0 <= i < whole.len() - 1 implies arc(
            snap.edges@,
            #[trigger] whole[i],
            whole[i + 1],
        ) by {
            if i < j {
                assert(arc(snap.edges@, prev[i], prev[i + 1]));
            } else {
                assert(arc(snap.edges@, tail[i - j], tail[i - j + 1]));
            }
        }
    }
    assert(in_graph(snap, whole)) by {
        assert forall|i: int| 0 <= i < whole.len() implies 0 <= #[trigger] whole[i] < snap.n() by {
            if i <= j {
                assert(0 <= prev[i] < snap.n());
            } else {
                assert(0 <= tail[i - j] < snap.n());
            }
        }
    }
    assert(whole.last() == tail[tail.len() - 1]);
    assert(whole.take(j + 1) =~= prev.take(j + 1));
    assert forall|i: int| 0 <= i < tail.len() implies whole[j + i] == #[trigger] tail[i] by {}
}

/// A root and a spur from its last node make a simple path that no path took before.
proof fn lemma_spur_path<C: Cost>(
    snap: CsrSnapshot,
    weights: Seq<C>,
    s: int,
    t: int,
    paths: Seq<Found<C>>,
    a: int,
    j: int,
    nodes: Set<u64>,
    pairs: Set<(u64, u64)>,
    f: Found<C>,
    total: Found<C>,
)
    requires
        snap.wf(),
        0 <= s < snap.n(),
        0 <= t < snap.n(),
        0 <= a,
        a + 1 == paths.len(),
        0 <= j,
        j + 1 < nodes_of(paths[a]).len(),
        all_proper(snap, weights, s, t, paths),
        spur_open(paths, a, j, nodes, pairs),
        cheapest_open(snap, weights, around(nodes, pairs), nodes_of(paths[a])[j], t, f),
        nodes_of(total) == nodes_of(paths[a]).take(j + 1) + nodes_of(f).skip(1),
        total.cost == path_cost(snap, weights, nodes_of(paths[a]).take(j + 1)).plus(f.cost),
    ensures
        proper(snap, weights, s, t, total),
        shares_root(nodes_of(total), nodes_of(paths[a]), j),
        forall|b: int| 0 <= b < paths.len() ==> nodes_of(#[trigger] paths[b]) != nodes_of(total),
        C::exact() ==> f.cost == path_cost(snap, weights, nodes_of(f)),
{
    let open = around(nodes, pairs);
    let prev = nodes_of(paths[a]);
    let root = prev.take(j + 1);
    let spur = prev[j];
    let tail = nodes_of(f);
    let whole = nodes_of(total);
    assert(proper(snap, weights, s, t, paths[a]));
    assert(0 <= prev[j] < snap.n());
    let ks = choose|ks: Seq<int>|
        #[trigger] follows(snap, open, spur, ks) && walk_end(snap, spur, ks) == t && walk_nodes(
            snap,
            spur,
            ks,
        ) == tail && walk_cost(weights, ks) == f.cost;
    lemma_walk_path(snap, weights, open, spur, ks);
    assert forall|i: int| 0 <= i < j implies nodes.contains(#[trigger] prev[i] as u64) by {
        assert(0 <= prev[i] < snap.n());
        assert(prev[i] == prev[i] as u64);
    }
    assert forall|i: int| 0 < i < tail.len() implies !nodes.contains(
        #[trigger] tail[i] as u64,
    ) by {
        let h = i - 1;
        assert(open(tail[h], tail[h + 1]));
    }
    lemma_joined(snap, s, t, prev, j, nodes, tail);
    lemma_not_taken(snap, paths, a, j, nodes, pairs, tail, whole);
    if C::exact() {
        let js = lemma_path_walk(snap, weights, open, tail);
        C::law_bounded(path_cost(snap, weights, tail), f.cost);
        C::law_exact(f.cost, path_cost(snap, weights, tail), C::zero());
        assert(follows(snap, open, spur, js));
        assert(root.last() == spur);
        lemma_path_cost_join(snap, weights, root, tail);
    }
}

/// A path that goes on after the root by an open step is none of the paths.
proof fn lemma_not_taken<C: Cost>(
    snap: CsrSnapshot,
    paths: Seq<Found<C>>,
    a: int,
    j: int,
    nodes: Set<u64>,
    pairs: Set<(u64, u64)>,
    tail: Seq<int>,
    whole: Seq<int>,
)
    requires
        0 <= a,
        a + 1 == paths.len(),
        0 <= j,
        snap.n() < u32::MAX,
        spur_open(paths, a, j, nodes, pairs),
        tail.len() >= 2,
        in_graph(snap, tail),
        steps_open(around(nodes, pairs), tail),
        shares_root(whole, nodes_of(paths[a]), j),
        whole.len() > j + 1,
        whole[j] == tail[0],
        whole[j + 1] == tail[1],
    ensures
        forall|b: int| 0 <= b < paths.len() ==> nodes_of(#[trigger] paths[b]) != whole,
{
    let prev = nodes_of(paths[a]);
    let open = around(nodes, pairs);
    assert forall|b: int| 0 <= b < paths.len() implies nodes_of(#[trigger] paths[b]) != whole by {
        if nodes_of(paths[b]) == whole {
            assert(open(tail[0int], tail[0int + 1]));
            assert(0 <= tail[0] < snap.n() && 0 <= tail[1] < snap.n());
            assert(takes(paths, prev, j, b, tail[0] as u64, tail[1] as u64));
            assert(some_takes(paths, prev, j, a + 1, tail[0] as u64, tail[1] as u64));
            assert(pairs.contains((tail[0] as u64, tail[1] as u64)));
        }
    }
}

/// The rest of a path that leaves path `a` at `j` in a new way is open to the spur.
proof fn lemma_suffix_open<C: Cost>(
    snap: CsrSnapshot,
    weights: Seq<C>,
    s: int,
    t: int,
    paths: Seq<Found<C>>,
    a: int,
    j: int,
    nodes: Set<u64>,
    pairs: Set<(u64, u64)>,
    q: Seq<int>,
)
    requires
        snap.wf(),
        0 <= a,
        a + 1 == paths.len(),
        0 <= j,
        all_proper(snap, weights, s, t, paths),
        spur_open(paths, a, j, nodes, pairs),
        simple_path(snap.edges@, s, t, q),
        in_graph(snap, q),
        deviates(paths, a, j, q),
    ensures
        steps_open(around(nodes, pairs), q.skip(j)),
{
    let open = around(nodes, pairs);
    let prev = nodes_of(paths[a]);
    let suffix = q.skip(j);
    assert forall|i: int| 0 <= i < suffix.len() - 1 implies open(
        #[trigger] suffix[i],
        suffix[i + 1],
    ) by {
        let x = suffix[i];
        let y = suffix[i + 1];
        assert(x == q[j + i] && y == q[j + i + 1]);
        assert(0 <= q[j + i] < snap.n() && 0 <= q[j + i + 1] < snap.n());
        if nodes.contains(y as u64) {
            let k = choose|k: int| 0 <= k < j && #[trigger] prev[k] == y as u64;
            assert(q.take(j + 1)[k] == prev.take(j + 1)[k]);
            assert(q[k] == q[j + i + 1]);
        }
        if pairs.contains((x as u64, y as u64)) {
            assert(some_takes(paths, prev, j, a + 1, x as u64, y as u64));
            let b = choose|b: int|
                0 <= b < a + 1 && #[trigger] takes(paths, prev, j, b, x as u64, y as u64);
            let pb = nodes_of(paths[b]);
            assert(pb.take(j + 1)[j] == prev.take(j + 1)[j]);
            assert(q.take(j + 1)[j] == prev.take(j + 1)[j]);
            assert(q[j + i] == q[j]);
            assert(i == 0);
            assert(pb.take(j + 1) == q.take(j + 1));
            assert(shares_root(pb, q, j));
            assert(proper(snap, weights, s, t, paths[b]));
            if pb.len() == j + 1 {
                lemma_same_path(snap.edges@, s, t, pb, q, j);
            }
            assert(pb[j + 1] == q[j + 1]);
        }
    }
}

/// Covers the spur of path `a` at `j`: whatever leaves the path there in a new
/// way can only be as good as the spur that was found.
proof fn lemma_spur_covers<C: Cost>(
    snap: CsrSnapshot,
    weights: Seq<C>,
    s: int,
    t: int,
    paths: Seq<Found<C>>,
    candidates: Seq<Found<C>>,
    a: int,
    j: int,
    nodes: Set<u64>,
    pairs: Set<(u64, u64)>,
    found: Option<Found<C>>,
    total: Found<C>,
)
    requires
        snap.wf(),
        0 <= s < snap.n(),
        0 <= t < snap.n(),
        C::exact(),
        0 <= a,
        a + 1 == paths.len(),
        0 <= j,
        j + 1 < nodes_of(paths[a]).len(),
        all_proper(snap, weights, s, t, paths),
        spur_open(paths, a, j, nodes, pairs),
        match found {
            None => none_open(snap, weights, around(nodes, pairs), nodes_of(paths[a])[j], t),
            Some(f) => {
                &&& cheapest_open(snap, weights, around(nodes, pairs), nodes_of(paths[a])[j], t, f)
                &&& nodes_of(total) == nodes_of(paths[a]).take(j + 1) + nodes_of(f).skip(1)
                &&& f.cost == path_cost(snap, weights, nodes_of(f))
                &&& candidates.contains(total)
            },
        },
    ensures
        spur_covered(snap, weights, s, t, paths, candidates, a, j),
{
    let open = around(nodes, pairs);
    let prev = nodes_of(paths[a]);
    let root = prev.take(j + 1);
    let spur = prev[j];
    assert(proper(snap, weights, s, t, paths[a]));
    assert forall|q: Seq<int>|
        #[trigger] simple_path(snap.edges@, s, t, q) && path_cost(snap, weights, q).bounded()
            && deviates(paths, a, j, q) implies exists|c: Found<C>|
        #[trigger] standing(paths, candidates, a, c) && shares_root(nodes_of(c), q, j)
            && path_cost(snap, weights, nodes_of(c)).le(path_cost(snap, weights, q)) by {
        let suffix = q.skip(j);
        assert(q.take(j + 1)[j] == prev.take(j + 1)[j]);
        assert(suffix[0] == spur);
        assert(q =~= root + suffix.skip(1)) by {
            assert forall|i: int| 0 <= i < j + 1 implies q[i] == root[i] by {
                assert(q.take(j + 1)[i] == prev.take(j + 1)[i]);
            }
        }
        lemma_walk_in_graph(snap, q, s);
        assert(is_walk(snap.edges@, suffix)) by {
            assert forall|i: int| 0 <= i < suffix.len() - 1 implies arc(
                snap.edges@,
                #[trigger] suffix[i],
                suffix[i + 1],
            ) by {
                assert(arc(snap.edges@, q[j + i], q[j + i + 1]));
            }
        }
        assert(in_graph(snap, suffix)) by {
            assert forall|i: int| 0 <= i < suffix.len() implies 0 <= #[trigger] suffix[i]
                < snap.n() by {
                assert(0 <= q[j + i] < snap.n());
            }
        }
        lemma_suffix_open(snap, weights, s, t, paths, a, j, nodes, pairs, q);
        let ks = lemma_path_walk(snap, weights, open, suffix);
        lemma_path_cost_join(snap, weights, root, suffix);
        let rc = path_cost(snap, weights, root);
        let sc = path_cost(snap, weights, suffix);
        C::law_exact(rc, sc, C::zero());
        assert(follows(snap, open, spur, ks));
        assert(suffix.last() == t);
        assert(found is Some);
        let f = found->0;
        assert(f.cost.le(sc));
        C::law_plus(f.cost, sc, rc);
        lemma_follows_start(snap, weights, open, spur, t, f);
        lemma_path_cost_join(snap, weights, root, nodes_of(f));
        assert(standing(paths, candidates, a, total));
        assert(nodes_of(total).take(j + 1) =~= root);
        assert(q.take(j + 1) == root);
    }
}

/// A cheapest path starts where it was asked to.
proof fn lemma_follows_start<C: Cost>(
    snap: CsrSnapshot,
    weights: Seq<C>,
    open: spec_fn(int, int) -> bool,
    s: int,
    t: int,
    f: Found<C>,
)
    requires
        snap.wf(),
        0 <= s < snap.n(),
        cheapest_open(snap, weights, open, s, t, f),
    ensures
        nodes_of(f).len() > 0,
        nodes_of(f)[0] == s,
{
    let ks = choose|ks: Seq<int>|
        #[trigger] follows(snap, open, s, ks) && walk_end(snap, s, ks) == t && walk_nodes(
            snap,
            s,
            ks,
        ) == nodes_of(f) && walk_cost(weights, ks) == f.cost;
    lemma_walk_path(snap, weights, open, s, ks);
}

/// A walk that starts in the graph stays in it.
proof fn lemma_walk_in_graph(snap: CsrSnapshot, p: Seq<int>, s: int)
    requires
        snap.wf(),
        is_walk(snap.edges@, p),
        p[0] == s,
        0 <= s < snap.n(),
    ensures
        in_graph(snap, p),
{
    assert forall|i: int| 0 <= i < p.len() implies 0 <= #[trigger] p[i] < snap.n() by {
        if i > 0 {
            assert(arc(snap.edges@, p[i - 1], p[i - 1 + 1]));
            let k = choose|k: int|
                0 <= k < snap.edges@.len() && (#[trigger] snap.edges@[k]).src == p[i - 1]
                    && snap.edges@[k].dst == p[i];
            assert(0 <= snap.edges@[k].dst < snap.n());
        }
    }
}

/// A root of `j + 1` nodes and a spur from its last one.
fn join(root: &Vec<usize>, j: usize, spur: &Vec<usize>) -> (whole: Vec<usize>)
    requires
        j + 1 < root@.len(),
        spur@.len() > 0,
    ensures
        whole@ == root@.take(j + 1) + spur@.skip(1),
{
    let mut whole: Vec<usize> = Vec::new();
    let mut i: usize = 0;
    assert(j + 1 < root.len());
    while i <= j
        invariant
            i <= j + 1 < usize::MAX,
            j + 1 < root@.len(),
            whole@ == root@.take(i as int),
        decreases j + 1 - i,
    {
        whole.push(root[i]);
        assert(whole@ =~= root@.take(i + 1));
        i = i + 1;
    }
    let mut k: usize = 1;
    assert(whole@ =~= root@.take(j + 1) + spur@.subrange(1, 1));
    while k < spur.len()
        invariant
            1 <= k <= spur@.len(),
            whole@ == root@.take(j + 1) + spur@.subrange(1, k as int),
        decreases spur@.len() - k,
    {
        whole.push(spur[k]);
        assert(whole@ =~= root@.take(j + 1) + spur@.subrange(1, k + 1));
        k = k + 1;
    }
    assert(spur@.subrange(1, k as int) =~= spur@.skip(1));
    whole
}

/// Where a list holds the nodes of a path.
fn find_nodes<C: Cost>(list: &Vec<Found<C>>, f: &Found<C>) -> (at: Option<usize>)
    ensures
        at matches Some(i) ==> i < list@.len() && nodes_of(list@[i as int]) == nodes_of(*f),
        at is None ==> forall|i: int|
            0 <= i < list@.len() ==> nodes_of(#[trigger] list@[i]) != nodes_of(*f),
{
    let mut c: usize = 0;
    while c < list.len()
        invariant
            c <= list@.len(),
            forall|i: int| 0 <= i < c ==> nodes_of(#[trigger] list@[i]) != nodes_of(*f),
        decreases list@.len() - c,
    {
        proof {
            lemma_nodes_injective(list@[c as int], *f);
        }
        if same_nodes(&list[c].nodes, &f.nodes) {
            return Some(c);
        }
        c = c + 1;
    }
    None
}

/// `f` is the last path up to position `j`, and then a cheapest way on that avoids the
/// root and what the paths take after it; it costs what the two cost together.
pub open spec fn spur_of<C: Cost>(
    snap: CsrSnapshot,
    weights: Seq<C>,
    t: int,
    paths: Seq<Found<C>>,
    j: int,
    spur: Found<C>,
    f: Found<C>,
) -> bool {
    let a = paths.len() - 1;
    let prev = nodes_of(paths[a]);
    &&& 0 <= a
    &&& 0 <= j < prev.len() - 1
    &&& exists|nodes: Set<u64>, pairs: Set<(u64, u64)>|
        #[trigger] spur_open(paths, a, j, nodes, pairs) && cheapest_open(
            snap,
            weights,
            around(nodes, pairs),
            prev[j],
            t,
            spur,
        )
    &&& nodes_of(f) == prev.take(j + 1) + nodes_of(spur).skip(1)
    &&& f.cost == path_cost(snap, weights, prev.take(j + 1)).plus(spur.cost)
}

/// `f` branches off one of the paths, when that one was the last.
pub open spec fn spurred<C: Cost>(
    snap: CsrSnapshot,
    weights: Seq<C>,
    t: int,
    paths: Seq<Found<C>>,
    f: Found<C>,
) -> bool {
    exists|a: int, j: int, spur: Found<C>|
        0 <= a < paths.len() && #[trigger] spur_of(
            snap,
            weights,
            t,
            paths.take(a + 1),
            j,
            spur,
            f,
        )
}

/// Every candidate branches off one of the paths.
pub open spec fn all_spurred<C: Cost>(
    snap: CsrSnapshot,
    weights: Seq<C>,
    t: int,
    paths: Seq<Found<C>>,
    list: Seq<Found<C>>,
) -> bool {
    forall|i: int| 0 <= i < list.len() ==> spurred(snap, weights, t, paths, #[trigger] list[i])
}

/// Every path but the first branches off an earlier one.
pub open spec fn branching<C: Cost>(
    snap: CsrSnapshot,
    weights: Seq<C>,
    t: int,
    list: Seq<Found<C>>,
) -> bool {
    forall|i: int|
        0 < i < list.len() ==> spurred(snap, weights, t, list.take(i), #[trigger] list[i])
}

/// Nothing branches off the last path at position `j`.
pub open spec fn no_spur<C: Cost>(
    snap: CsrSnapshot,
    weights: Seq<C>,
    t: int,
    paths: Seq<Found<C>>,
    j: int,
) -> bool {
    let a = paths.len() - 1;
    exists|nodes: Set<u64>, pairs: Set<(u64, u64)>|
        #[trigger] spur_open(paths, a, j, nodes, pairs) && none_open(
            snap,
            weights,
            around(nodes, pairs),
            nodes_of(paths[a])[j],
            t,
        )
}

/// A list holds a path with these nodes.
pub open spec fn listed<C: Cost>(list: Seq<Found<C>>, q: Seq<int>) -> bool {
    exists|b: int| 0 <= b < list.len() && nodes_of(#[trigger] list[b]) == q
}

/// What branches off path `a` at position `j` is a path or a candidate.
pub open spec fn offered<C: Cost>(
    snap: CsrSnapshot,
    weights: Seq<C>,
    t: int,
    paths: Seq<Found<C>>,
    candidates: Seq<Found<C>>,
    a: int,
    j: int,
) -> bool {
    no_spur(snap, weights, t, paths.take(a + 1), j) || exists|spur: Found<C>, c: Found<C>|
        #[trigger] spur_of(snap, weights, t, paths.take(a + 1), j, spur, c) && (listed(
            paths,
            nodes_of(c),
        ) || listed(candidates, nodes_of(c)))
}

/// Whatever branches off the first `m` paths is a path or a candidate.
pub open spec fn all_offered<C: Cost>(
    snap: CsrSnapshot,
    weights: Seq<C>,
    t: int,
    paths: Seq<Found<C>>,
    candidates: Seq<Found<C>>,
    m: int,
) -> bool {
    forall|a: int, j: int|
        0 <= a < m && 0 <= j < nodes_of(paths[a]).len() - 1 ==> #[trigger] offered(
            snap,
            weights,
            t,
            paths,
            candidates,
            a,
            j,
        )
}

/// `f` is picked over some branch of the paths with the nodes `q`.
pub open spec fn beats<C: Cost>(
    snap: CsrSnapshot,
    weights: Seq<C>,
    t: int,
    paths: Seq<Found<C>>,
    f: Found<C>,
    q: Seq<int>,
) -> bool {
    exists|d: Found<C>|
        nodes_of(d) == q && #[trigger] spurred(snap, weights, t, paths, d) && picked_over(f, d)
}

/// What branches off path `a` at position `j` is among the first `i` paths, or the one
/// after them is picked over it.
pub open spec fn outdone<C: Cost>(
    snap: CsrSnapshot,
    weights: Seq<C>,
    t: int,
    list: Seq<Found<C>>,
    i: int,
    a: int,
    j: int,
) -> bool {
    no_spur(snap, weights, t, list.take(a + 1), j) || exists|spur: Found<C>, c: Found<C>|
        #[trigger] spur_of(snap, weights, t, list.take(a + 1), j, spur, c) && (listed(
            list.take(i),
            nodes_of(c),
        ) || beats(snap, weights, t, list.take(i), list[i], nodes_of(c)))
}

/// Path `i` is picked over whatever else branches off the paths before it.
pub open spec fn next_best<C: Cost>(
    snap: CsrSnapshot,
    weights: Seq<C>,
    t: int,
    list: Seq<Found<C>>,
    i: int,
) -> bool {
    forall|a: int, j: int|
        0 <= a < i && 0 <= j < nodes_of(list[a]).len() - 1 ==> #[trigger] outdone(
            snap,
            weights,
            t,
            list,
            i,
            a,
            j,
        )
}

/// What was offered is offered still where no path and no candidate is lost.
proof fn lemma_offered_later<C: Cost>(
    snap: CsrSnapshot,
    weights: Seq<C>,
    t: int,
    paths: Seq<Found<C>>,
    candidates: Seq<Found<C>>,
    more: Seq<Found<C>>,
    after: Seq<Found<C>>,
    a: int,
    j: int,
)
    requires
        0 <= a < paths.len() <= more.len(),
        more.take(paths.len() as int) == paths,
        offered(snap, weights, t, paths, candidates, a, j),
        forall|c: Found<C>| #[trigger] candidates.contains(c) ==> after.contains(c) || more.contains(
            c,
        ),
    ensures
        offered(snap, weights, t, more, after, a, j),
{
    assert(more.take(a + 1) =~= paths.take(a + 1));
    if !no_spur(snap, weights, t, paths.take(a + 1), j) {
        let (spur, c) = choose|spur: Found<C>, c: Found<C>|
            #[trigger] spur_of(snap, weights, t, paths.take(a + 1), j, spur, c) && (listed(
                paths,
                nodes_of(c),
            ) || listed(candidates, nodes_of(c)));
        let q = nodes_of(c);
        if listed(paths, q) {
            let b = choose|b: int| 0 <= b < paths.len() && nodes_of(#[trigger] paths[b]) == q;
            assert(more.take(paths.len() as int)[b] == more[b]);
            assert(nodes_of(more[b]) == q);
        } else {
            let b = choose|b: int|
                0 <= b < candidates.len() && nodes_of(#[trigger] candidates[b]) == q;
            let d = candidates[b];
            assert(candidates.contains(d));
            if after.contains(d) {
                let i = after.index_of(d);
                assert(nodes_of(after[i]) == q);
            } else {
                let i = more.index_of(d);
                assert(nodes_of(more[i]) == q);
            }
        }
        assert(spur_of(snap, weights, t, more.take(a + 1), j, spur, c));
    }
}

/// A candidate that is picked over the others is the next best path.
proof fn lemma_next_best<C: Cost>(
    snap: CsrSnapshot,
    weights: Seq<C>,
    t: int,
    paths: Seq<Found<C>>,
    candidates: Seq<Found<C>>,
    best: int,
)
    requires
        0 <= best < candidates.len(),
        all_offered(snap, weights, t, paths, candidates, paths.len() as int),
        all_spurred(snap, weights, t, paths, candidates),
        forall|k: int|
            0 <= k < candidates.len() ==> picked_over(candidates[best], #[trigger] candidates[k]),
        forall|i: int| 0 < i < paths.len() ==> #[trigger] next_best(snap, weights, t, paths, i),
    ensures
        forall|i: int|
            0 < i < paths.len() + 1 ==> #[trigger] next_best(
                snap,
                weights,
                t,
                paths.push(candidates[best]),
                i,
            ),
{
    let more = paths.push(candidates[best]);
    assert forall|i: int| 0 < i < paths.len() + 1 implies #[trigger] next_best(
        snap,
        weights,
        t,
        more,
        i,
    ) by {
        assert forall|a: int, j: int|
            0 <= a < i && 0 <= j < nodes_of(more[a]).len() - 1 implies #[trigger] outdone(
            snap,
            weights,
            t,
            more,
            i,
            a,
            j,
        ) by {
            assert(more[a] == paths[a]);
            assert(more.take(a + 1) =~= paths.take(a + 1));
            assert(more.take(i) =~= paths.take(i));
            if i < paths.len() {
                assert(next_best(snap, weights, t, paths, i));
                assert(outdone(snap, weights, t, paths, i, a, j));
                assert(more[i] == paths[i]);
            } else {
                assert(paths.take(i) =~= paths);
                assert(offered(snap, weights, t, paths, candidates, a, j));
                if !no_spur(snap, weights, t, paths.take(a + 1), j) {
                    let (spur, c) = choose|spur: Found<C>, c: Found<C>|
                        #[trigger] spur_of(snap, weights, t, paths.take(a + 1), j, spur, c) && (
                        listed(paths, nodes_of(c)) || listed(candidates, nodes_of(c)));
                    if !listed(paths, nodes_of(c)) {
                        let b = choose|b: int|
                            0 <= b < candidates.len() && nodes_of(#[trigger] candidates[b])
                                == nodes_of(c);
                        assert(spurred(snap, weights, t, paths, candidates[b]));
                        assert(beats(snap, weights, t, paths, more[i], nodes_of(c)));
                    }
                    assert(spur_of(snap, weights, t, more.take(a + 1), j, spur, c));
                }
            }
        }
    }
}

/// What branches off the paths branches off more paths.
proof fn lemma_spurred_later<C: Cost>(
    snap: CsrSnapshot,
    weights: Seq<C>,
    t: int,
    paths: Seq<Found<C>>,
    more: Seq<Found<C>>,
    f: Found<C>,
)
    requires
        spurred(snap, weights, t, paths, f),
        paths.len() <= more.len(),
        more.take(paths.len() as int) == paths,
    ensures
        spurred(snap, weights, t, more, f),
{
    let (a, j, spur) = choose|a: int, j: int, spur: Found<C>|
        0 <= a < paths.len() && #[trigger] spur_of(
            snap,
            weights,
            t,
            paths.take(a + 1),
            j,
            spur,
            f,
        );
    assert(more.take(a + 1) =~= paths.take(a + 1));
    assert(spur_of(snap, weights, t, more.take(a + 1), j, spur, f));
}

/// Adds the spur of the last path at position `j` to the candidates, unless it is
/// there already.
#[verifier::rlimit(60)]
#[verifier::spinoff_prover]
fn add_spur<C: Cost>(
    snap: &CsrSnapshot,
    weights: &Vec<C>,
    live: &Option<Vec<bool>>,
    s: Ghost<int>,
    t: usize,
    paths: &Vec<Found<C>>,
    j: usize,
    candidates: &mut Vec<Found<C>>,
)
    requires
        snap.wf(),
        weights@.len() == snap.edges@.len(),
        prepared(*snap, weights@, t as int, *live),
        0 <= s@ < snap.n(),
        t < snap.n(),
        paths@.len() > 0,
        j + 1 < paths@.last().nodes@.len(),
        all_proper(*snap, weights@, s@, t as int, paths@),
        all_proper(*snap, weights@, s@, t as int, old(candidates)@),
        all_distinct(paths@, old(candidates)@),
        all_spurred(*snap, weights@, t as int, paths@, old(candidates)@),
    ensures
        all_proper(*snap, weights@, s@, t as int, final(candidates)@),
        all_distinct(paths@, final(candidates)@),
        all_spurred(*snap, weights@, t as int, paths@, final(candidates)@),
        forall|c: Found<C>|
            old(candidates)@.contains(c) ==> #[trigger] final(candidates)@.contains(c),
        offered(
            *snap,
            weights@,
            t as int,
            paths@,
            final(candidates)@,
            paths@.len() - 1,
            j as int,
        ),
        C::exact() ==> spur_covered(
            *snap,
            weights@,
            s@,
            t as int,
            paths@,
            final(candidates)@,
            paths@.len() - 1,
            j as int,
        ),
{
    let a: usize = paths.len() - 1;
    let ghost prev = nodes_of(paths@[a as int]);
    let ghost before = candidates@;
    proof {
        assert(proper(*snap, weights@, s@, t as int, paths@[a as int]));
        assert forall|i: int| 0 <= i < paths@[a as int].nodes@.len() implies (
        #[trigger] paths@[a as int].nodes@[i]) < snap.n() by {
            assert(0 <= prev[i] < snap.n());
        }
    }
    proof {
        assert forall|b: int| 0 <= b <= a implies #[trigger] goes_on(
            paths@,
            a as int,
            b,
            j as int,
        ) by {
            lemma_next_exists(*snap, weights@, s@, t as int, paths@, a as int, b, j as int);
        }
    }
    let (nodes, pairs) = block(paths, a, j);
    let spur: usize = paths[a].nodes[j];
    assert(prev[j as int] == spur);
    let found: Option<Found<C>> = find_cheapest(snap, weights, live, spur, t, &nodes, &pairs);
    match found {
        None => {
            proof {
                assert(paths@.take(a + 1) =~= paths@);
                assert(no_spur(*snap, weights@, t as int, paths@.take(a + 1), j as int));
                if C::exact() {
                    lemma_spur_covers(
                        *snap,
                        weights@,
                        s@,
                        t as int,
                        paths@,
                        before,
                        a as int,
                        j as int,
                        ids_in(nodes),
                        pairs_in(pairs),
                        None,
                        paths@[a as int],
                    );
                }
            }
        },
        Some(f) => {
            proof {
                lemma_follows_start(
                    *snap,
                    weights@,
                    around(ids_in(nodes), pairs_in(pairs)),
                    spur as int,
                    t as int,
                    f,
                );
            }
            let root_cost: C = cost_of_root(snap, weights, &paths[a].nodes, j);
            let whole: Vec<usize> = join(&paths[a].nodes, j, &f.nodes);
            let total = Found { nodes: whole, cost: root_cost.added(&f.cost) };
            proof {
                assert(nodes_of(total) =~= prev.take(j + 1) + nodes_of(f).skip(1));
                lemma_spur_path(
                    *snap,
                    weights@,
                    s@,
                    t as int,
                    paths@,
                    a as int,
                    j as int,
                    ids_in(nodes),
                    pairs_in(pairs),
                    f,
                    total,
                );
            }
            proof {
                assert(paths@.take(a + 1) =~= paths@);
                assert(spur_of(
                    *snap,
                    weights@,
                    t as int,
                    paths@.take(a + 1),
                    j as int,
                    f,
                    total,
                ));
            }
            let ghost q = nodes_of(total);
            let known: Option<usize> = find_nodes(candidates, &total);
            if known.is_none() {
                candidates.push(total);
                proof {
                    assert(nodes_of(candidates@[before.len() as int]) == q);
                    assert(listed(candidates@, q));
                    assert forall|i: int| 0 <= i < candidates@.len() implies spurred(
                        *snap,
                        weights@,
                        t as int,
                        paths@,
                        #[trigger] candidates@[i],
                    ) by {
                        if i < before.len() {
                            assert(candidates@[i] == before[i]);
                        }
                    }
                    assert(candidates@[before.len() as int] == total);
                    assert forall|x: Found<C>|
                        before.contains(x) implies #[trigger] candidates@.contains(x) by {
                        let k = choose|k: int| 0 <= k < before.len() && before[k] == x;
                        assert(candidates@[k] == x);
                    }
                    if C::exact() {
                        lemma_spur_covers(
                            *snap,
                            weights@,
                            s@,
                            t as int,
                            paths@,
                            candidates@,
                            a as int,
                            j as int,
                            ids_in(nodes),
                            pairs_in(pairs),
                            Some(f),
                            total,
                        );
                    }
                }
            } else {
                proof {
                    assert(nodes_of(before[known->0 as int]) == q);
                    assert(listed(before, q));
                    if C::exact() {
                        let at = known->0 as int;
                        assert(before.contains(before[at]));
                        lemma_spur_covers(
                            *snap,
                            weights@,
                            s@,
                            t as int,
                            paths@,
                            before,
                            a as int,
                            j as int,
                            ids_in(nodes),
                            pairs_in(pairs),
                            Some(f),
                            before[at],
                        );
                    }
                }
            }
        },
    }
}

/// Lexicographic order of lists of nodes, a proper prefix first.
pub open spec fn nodes_lt(a: Seq<usize>, b: Seq<usize>) -> bool
    decreases a.len(),
{
    if b.len() == 0 {
        false
    } else if a.len() == 0 {
        true
    } else if a[0] != b[0] {
        a[0] < b[0]
    } else {
        nodes_lt(a.skip(1), b.skip(1))
    }
}

proof fn lemma_nodes_lt_transitive(a: Seq<usize>, b: Seq<usize>, c: Seq<usize>)
    requires
        nodes_lt(a, b),
        nodes_lt(b, c),
    ensures
        nodes_lt(a, c),
    decreases a.len(),
{
    if a.len() > 0 && a[0] == b[0] && b[0] == c[0] {
        lemma_nodes_lt_transitive(a.skip(1), b.skip(1), c.skip(1));
    }
}

proof fn lemma_nodes_lt_irreflexive(a: Seq<usize>)
    ensures
        !nodes_lt(a, a),
    decreases a.len(),
{
    if a.len() > 0 {
        lemma_nodes_lt_irreflexive(a.skip(1));
    }
}

fn nodes_less(a: &Vec<usize>, b: &Vec<usize>) -> (r: bool)
    ensures
        r == nodes_lt(a@, b@),
{
    let mut i: usize = 0;
    assert(a@.skip(0) =~= a@);
    assert(b@.skip(0) =~= b@);
    loop
        invariant
            i <= a@.len(),
            i <= b@.len(),
            nodes_lt(a@.skip(i as int), b@.skip(i as int)) == nodes_lt(a@, b@),
        decreases a@.len() - i,
    {
        if i == b.len() {
            return false;
        }
        if i == a.len() {
            return true;
        }
        proof {
            assert(a@.skip(i as int).skip(1) =~= a@.skip(i + 1));
            assert(b@.skip(i as int).skip(1) =~= b@.skip(i + 1));
        }
        if a[i] != b[i] {
            return a[i] < b[i];
        }
        i = i + 1;
    }
}

/// `f` is no worse a pick than `g`: cheaper, or as cheap and not after it.
pub open spec fn picked_over<C: Cost>(f: Found<C>, g: Found<C>) -> bool {
    f.cost.le(g.cost) && (g.cost.le(f.cost) ==> !nodes_lt(g.nodes@, f.nodes@))
}

/// The cheapest candidate, the lexicographically first of those that are as cheap.
fn pick<C: Cost>(list: &Vec<Found<C>>) -> (best: usize)
    requires
        list@.len() > 0,
    ensures
        best < list@.len(),
        forall|i: int| 0 <= i < list@.len() ==> picked_over(list@[best as int], #[trigger] list@[i]),
{
    let mut best: usize = 0;
    let mut i: usize = 1;
    proof {
        let f = list@[0];
        C::law_order(f.cost, f.cost, f.cost);
        lemma_nodes_lt_irreflexive(f.nodes@);
    }
    while i < list.len()
        invariant
            best < i <= list@.len(),
            forall|k: int| 0 <= k < i ==> picked_over(list@[best as int], #[trigger] list@[k]),
        decreases list@.len() - i,
    {
        let ghost f = list@[best as int];
        let ghost g = list@[i as int];
        let cheaper: bool = list[i].cost.less(&list[best].cost);
        let dearer: bool = list[best].cost.less(&list[i].cost);
        proof {
            C::law_order(g.cost, g.cost, g.cost);
            C::law_order(f.cost, g.cost, g.cost);
            lemma_nodes_lt_irreflexive(g.nodes@);
        }
        if cheaper || (!dearer && nodes_less(&list[i].nodes, &list[best].nodes)) {
            proof {
                assert forall|k: int| 0 <= k < i + 1 implies picked_over(
                    g,
                    #[trigger] list@[k],
                ) by {
                    if k < i {
                        let h = list@[k];
                        assert(picked_over(f, h));
                        C::law_order(g.cost, f.cost, h.cost);
                        C::law_order(f.cost, h.cost, g.cost);
                        C::law_order(h.cost, g.cost, f.cost);
                        if h.cost.le(g.cost) && nodes_lt(h.nodes@, g.nodes@) {
                            if !cheaper {
                                lemma_nodes_lt_transitive(h.nodes@, g.nodes@, f.nodes@);
                            }
                        }
                    }
                }
            }
            best = i;
        }
        i = i + 1;
    }
    best
}

/// Path `i` of a list is a cheapest simple path among those that do not come
/// before it in the list.
pub open spec fn cheapest_left<C: Cost>(
    snap: CsrSnapshot,
    weights: Seq<C>,
    s: int,
    t: int,
    list: Seq<Found<C>>,
    i: int,
) -> bool {
    forall|q: Seq<int>|
        #[trigger] simple_path(snap.edges@, s, t, q) && path_cost(snap, weights, q).bounded() && (
        forall|b: int| 0 <= b < i ==> nodes_of(#[trigger] list[b]) != q) ==> list[i].cost.le(
            path_cost(snap, weights, q),
        )
}

/// What the search for the `k` cheapest paths has found: distinct simple paths, of which
/// the first is a cheapest one. Each of the others branches off one before it, costs what
/// its root and its spur cost together, and is picked over whatever else branches off; the
/// list ends early only where nothing else does. Where costs are exact, each path is a
/// cheapest of those that are left, and no path is missing from a list that ends early.
pub open spec fn top_paths<C: Cost>(
    snap: CsrSnapshot,
    weights: Seq<C>,
    s: int,
    t: int,
    k: nat,
    list: Seq<Found<C>>,
) -> bool {
    &&& list.len() <= k
    &&& all_proper(snap, weights, s, t, list)
    &&& forall|i: int, j: int|
        #![trigger list[i], list[j]]
        0 <= i < j < list.len() ==> nodes_of(list[i]) != nodes_of(list[j])
    &&& list.len() == 0 && k > 0 ==> none_open(snap, weights, anywhere(), s, t)
    &&& list.len() > 0 ==> cheapest_open(
        snap,
        weights,
        anywhere(),
        s,
        t,
        list[0],
    )
    &&& branching(snap, weights, t, list)
    &&& forall|i: int| 0 < i < list.len() ==> #[trigger] next_best(snap, weights, t, list, i)
    &&& 0 < list.len() < k ==> all_offered(
        snap,
        weights,
        t,
        list,
        Seq::empty(),
        list.len() as int,
    )
    &&& C::exact() ==> forall|i: int|
        0 <= i < list.len() ==> #[trigger] cheapest_left(snap, weights, s, t, list, i)
    &&& C::exact() && list.len() < k ==> forall|q: Seq<int>|
        #[trigger] simple_path(snap.edges@, s, t, q) && path_cost(snap, weights, q).bounded()
            ==> exists|b: int| 0 <= b < list.len() && nodes_of(#[trigger] list[b]) == q
}

/// Adds all spurs of the last path to the candidates.
fn add_spurs<C: Cost>(
    snap: &CsrSnapshot,
    weights: &Vec<C>,
    live: &Option<Vec<bool>>,
    s: Ghost<int>,
    t: usize,
    paths: &Vec<Found<C>>,
    candidates: &mut Vec<Found<C>>,
)
    requires
        snap.wf(),
        weights@.len() == snap.edges@.len(),
        prepared(*snap, weights@, t as int, *live),
        0 <= s@ < snap.n(),
        t < snap.n(),
        paths@.len() > 0,
        all_proper(*snap, weights@, s@, t as int, paths@),
        all_proper(*snap, weights@, s@, t as int, old(candidates)@),
        all_distinct(paths@, old(candidates)@),
        all_spurred(*snap, weights@, t as int, paths@, old(candidates)@),
        all_offered(
            *snap,
            weights@,
            t as int,
            paths@,
            old(candidates)@,
            paths@.len() - 1,
        ),
        C::exact() ==> all_covered(
            *snap,
            weights@,
            s@,
            t as int,
            paths@,
            old(candidates)@,
            paths@.len() - 1,
        ),
    ensures
        all_proper(*snap, weights@, s@, t as int, final(candidates)@),
        all_distinct(paths@, final(candidates)@),
        all_spurred(*snap, weights@, t as int, paths@, final(candidates)@),
        all_offered(
            *snap,
            weights@,
            t as int,
            paths@,
            final(candidates)@,
            paths@.len() as int,
        ),
        C::exact() ==> all_covered(
            *snap,
            weights@,
            s@,
            t as int,
            paths@,
            final(candidates)@,
            paths@.len() as int,
        ),
{
    let a: usize = paths.len() - 1;
    let len: usize = paths[a].nodes.len();
    proof {
        assert(proper(*snap, weights@, s@, t as int, paths@[a as int]));
        assert(nodes_of(paths@[a as int]).len() == len);
    }
    let mut j: usize = 0;
    while j + 1 < len
        invariant
            snap.wf(),
            weights@.len() == snap.edges@.len(),
            prepared(*snap, weights@, t as int, *live),
            0 <= s@ < snap.n(),
            t < snap.n(),
            paths@.len() > 0,
            a == paths@.len() - 1,
            len == paths@[a as int].nodes@.len(),
            0 < len,
            j < len,
            all_proper(*snap, weights@, s@, t as int, paths@),
            all_proper(*snap, weights@, s@, t as int, candidates@),
            all_distinct(paths@, candidates@),
            all_spurred(*snap, weights@, t as int, paths@, candidates@),
            all_offered(*snap, weights@, t as int, paths@, candidates@, a as int),
            forall|i: int|
                0 <= i < j ==> #[trigger] offered(
                    *snap,
                    weights@,
                    t as int,
                    paths@,
                    candidates@,
                    a as int,
                    i,
                ),
            C::exact() ==> all_covered(
                *snap,
                weights@,
                s@,
                t as int,
                paths@,
                candidates@,
                a as int,
            ),
            C::exact() ==> forall|i: int|
                0 <= i < j ==> #[trigger] spur_covered(
                    *snap,
                    weights@,
                    s@,
                    t as int,
                    paths@,
                    candidates@,
                    a as int,
                    i,
                ),
        decreases len - j,
    {
        let ghost before = candidates@;
        add_spur(snap, weights, live, s, t, paths, j, candidates);
        proof {
            assert(paths@.take(paths@.len() as int) =~= paths@);
            assert forall|x: int, i: int|
                0 <= x < a && 0 <= i < nodes_of(paths@[x]).len() - 1 implies #[trigger] offered(
                *snap,
                weights@,
                t as int,
                paths@,
                candidates@,
                x,
                i,
            ) by {
                assert(offered(*snap, weights@, t as int, paths@, before, x, i));
                lemma_offered_later(
                    *snap,
                    weights@,
                    t as int,
                    paths@,
                    before,
                    paths@,
                    candidates@,
                    x,
                    i,
                );
            }
            assert forall|i: int| 0 <= i < j + 1 implies #[trigger] offered(
                *snap,
                weights@,
                t as int,
                paths@,
                candidates@,
                a as int,
                i,
            ) by {
                if i < j {
                    assert(offered(*snap, weights@, t as int, paths@, before, a as int, i));
                    lemma_offered_later(
                        *snap,
                        weights@,
                        t as int,
                        paths@,
                        before,
                        paths@,
                        candidates@,
                        a as int,
                        i,
                    );
                }
            }
            if C::exact() {
                assert forall|x: int, c: Found<C>|
                    before.contains(c) implies #[trigger] standing(paths@, candidates@, x, c) by {
                    assert(candidates@.contains(c));
                }
                assert forall|x: int, i: int|
                    0 <= x < a && 0 <= i < nodes_of(paths@[x]).len() - 1 implies
                    #[trigger] spur_covered(
                    *snap,
                    weights@,
                    s@,
                    t as int,
                    paths@,
                    candidates@,
                    x,
                    i,
                ) by {
                    assert(spur_covered(*snap, weights@, s@, t as int, paths@, before, x, i));
                    lemma_covered_keeps(
                        *snap,
                        weights@,
                        s@,
                        t as int,
                        paths@,
                        before,
                        paths@,
                        candidates@,
                        x,
                        i,
                    );
                }
                assert forall|i: int| 0 <= i < j implies #[trigger] spur_covered(
                    *snap,
                    weights@,
                    s@,
                    t as int,
                    paths@,
                    candidates@,
                    a as int,
                    i,
                ) by {
                    assert(spur_covered(
                        *snap,
                        weights@,
                        s@,
                        t as int,
                        paths@,
                        before,
                        a as int,
                        i,
                    ));
                    lemma_covered_keeps(
                        *snap,
                        weights@,
                        s@,
                        t as int,
                        paths@,
                        before,
                        paths@,
                        candidates@,
                        a as int,
                        i,
                    );
                }
            }
        }
        j = j + 1;
    }
    proof {
        assert(nodes_of(paths@[a as int]).len() == len);
    }
}

/// The `k` cheapest simple paths from `s` to `t`.
fn cheapest_paths<C: Cost>(
    snap: &CsrSnapshot,
    weights: &Vec<C>,
    s: usize,
    t: usize,
    k: usize,
) -> (paths: Vec<Found<C>>)
    requires
        snap.wf(),
        weights@.len() == snap.edges@.len(),
        s < snap.n(),
        t < snap.n(),
        k > 0,
    ensures
        top_paths(*snap, weights@, s as int, t as int, k as nat, paths@),
{
    let ghost si = s as int;
    let ghost ti = t as int;
    let mut paths: Vec<Found<C>> = Vec::new();
    let live: Option<Vec<bool>> = if any_negative(weights) {
        Some(nodes_towards(snap, t))
    } else {
        None
    };
    let none: ahash::AHashSet<u64> = new_ids();
    let no_pairs: ahash::AHashSet<(u64, u64)> = new_pairs();
    proof {
        let open = around(ids_in(none), pairs_in(no_pairs));
        let all = anywhere();
        assert(open =~= all) by {
            assert forall|u: int, v: int| #[trigger] open(u, v) == all(u, v) by {}
        }
    }
    let found: Option<Found<C>> = find_cheapest(snap, weights, &live, s, t, &none, &no_pairs);
    let first: Found<C> = match found {
        None => {
            proof {
                assert forall|q: Seq<int>|
                    #[trigger] simple_path(snap.edges@, si, ti, q) && path_cost(
                        *snap,
                        weights@,
                        q,
                    ).bounded() implies exists|b: int|
                    0 <= b < paths@.len() && nodes_of(#[trigger] paths@[b]) == q by {
                    lemma_walk_in_graph(*snap, q, si);
                    let all = anywhere();
                    let ks = lemma_path_walk(*snap, weights@, all, q);
                    assert(follows(*snap, all, si, ks));
                }
            }
            return paths;
        },
        Some(f) => f,
    };
    proof {
        lemma_first_path(*snap, weights@, si, ti, first);
    }
    paths.push(first);
    let mut candidates: Vec<Found<C>> = Vec::new();
    while paths.len() < k
        invariant
            snap.wf(),
            weights@.len() == snap.edges@.len(),
            prepared(*snap, weights@, t as int, live),
            s < snap.n(),
            t < snap.n(),
            si == s as int,
            ti == t as int,
            0 < paths@.len() <= k,
            all_proper(*snap, weights@, si, ti, paths@),
            all_proper(*snap, weights@, si, ti, candidates@),
            all_distinct(paths@, candidates@),
            all_spurred(*snap, weights@, ti, paths@, candidates@),
            branching(*snap, weights@, ti, paths@),
            all_offered(*snap, weights@, ti, paths@, candidates@, paths@.len() - 1),
            forall|i: int|
                0 < i < paths@.len() ==> #[trigger] next_best(*snap, weights@, ti, paths@, i),
            cheapest_open(*snap, weights@, anywhere(), si, ti, paths@[0]),
            C::exact() ==> all_covered(
                *snap,
                weights@,
                si,
                ti,
                paths@,
                candidates@,
                paths@.len() - 1,
            ),
            C::exact() ==> forall|i: int|
                0 <= i < paths@.len() ==> #[trigger] cheapest_left(
                    *snap,
                    weights@,
                    si,
                    ti,
                    paths@,
                    i,
                ),
        decreases k - paths@.len(),
    {
        add_spurs(snap, weights, &live, Ghost(si), t, &paths, &mut candidates);
        if candidates.len() == 0 {
            proof {
                assert(candidates@ =~= Seq::empty());
                if C::exact() {
                    assert forall|q: Seq<int>|
                        #[trigger] simple_path(snap.edges@, si, ti, q) && path_cost(
                            *snap,
                            weights@,
                            q,
                        ).bounded() implies exists|b: int|
                        0 <= b < paths@.len() && nodes_of(#[trigger] paths@[b]) == q by {
                        if forall|b: int|
                            0 <= b < paths@.len() ==> nodes_of(#[trigger] paths@[b]) != q {
                            let c = lemma_cover(
                                *snap,
                                weights@,
                                si,
                                ti,
                                paths@,
                                candidates@,
                                q,
                            );
                        }
                    }
                }
            }
            return paths;
        }
        let best: usize = pick(&candidates);
        let ghost before = candidates@;
        let ghost paths0 = paths@;
        let f: Found<C> = candidates.swap_remove(best);
        paths.push(f);
        proof {
            assert(f == before[best as int]);
            lemma_moved(before, candidates@, best as int);
            lemma_picked(*snap, weights@, si, ti, paths0, before, candidates@, best as int);
            lemma_next_best(*snap, weights@, ti, paths0, before, best as int);
            lemma_picked_offers(*snap, weights@, ti, paths0, before, candidates@, best as int);
            lemma_picked_spurs(*snap, weights@, ti, paths0, before, candidates@, best as int);
            if C::exact() {
                lemma_pick_is_cheapest(
                    *snap,
                    weights@,
                    si,
                    ti,
                    paths0,
                    before,
                    paths@,
                    best as int,
                );
                assert forall|a: int, c: Found<C>|
                    a < paths0.len() && before.contains(c) implies #[trigger] standing(
                    paths@,
                    candidates@,
                    a,
                    c,
                ) by {
                    if !candidates@.contains(c) {
                        assert(paths@[paths0.len() as int] == c);
                    }
                }
                assert forall|a: int, j: int|
                    0 <= a < paths@.len() - 1 && 0 <= j < nodes_of(paths@[a]).len() - 1 implies
                    #[trigger] spur_covered(
                    *snap,
                    weights@,
                    si,
                    ti,
                    paths@,
                    candidates@,
                    a,
                    j,
                ) by {
                    assert(paths@[a] == paths0[a]);
                    assert(spur_covered(*snap, weights@, si, ti, paths0, before, a, j));
                    lemma_covered_keeps(
                        *snap,
                        weights@,
                        si,
                        ti,
                        paths0,
                        before,
                        paths@,
                        candidates@,
                        a,
                        j,
                    );
                }
            }
        }
    }
    paths
}

/// Taking one item out of a list keeps the others.
proof fn lemma_moved<A>(before: Seq<A>, after: Seq<A>, best: int)
    requires
        0 <= best < before.len(),
        after == before.update(best, before.last()).drop_last(),
    ensures
        after.len() == before.len() - 1,
        forall|c: A| before.contains(c) && c != before[best] ==> #[trigger] after.contains(c),
{
    assert forall|c: A| before.contains(c) && c != before[best] implies #[trigger] after.contains(
        c,
    ) by {
        let k = choose|k: int| 0 <= k < before.len() && before[k] == c;
        if k == before.len() - 1 {
            assert(after[best] == c);
        } else {
            assert(after[k] == c);
        }
    }
}

/// Moving a candidate to the paths keeps what holds of both.
proof fn lemma_picked<C: Cost>(
    snap: CsrSnapshot,
    weights: Seq<C>,
    s: int,
    t: int,
    paths0: Seq<Found<C>>,
    before: Seq<Found<C>>,
    after: Seq<Found<C>>,
    best: int,
)
    requires
        0 <= best < before.len(),
        after == before.update(best, before.last()).drop_last(),
        all_proper(snap, weights, s, t, paths0),
        all_proper(snap, weights, s, t, before),
        all_distinct(paths0, before),
    ensures
        all_proper(snap, weights, s, t, paths0.push(before[best])),
        all_proper(snap, weights, s, t, after),
        all_distinct(paths0.push(before[best]), after),
{
    let paths = paths0.push(before[best]);
        assert(all_proper(snap, weights, s, t, paths)) by {
        assert forall|i: int| 0 <= i < paths.len() implies proper(
            snap,
            weights,
            s,
            t,
            #[trigger] paths[i],
        ) by {
            if i < paths0.len() {
                assert(paths0[i] == paths[i]);
            } else {
                assert(proper(snap, weights, s, t, before[best]));
            }
        }
    }
    assert(all_proper(snap, weights, s, t, after)) by {
        assert forall|i: int| 0 <= i < after.len() implies proper(
            snap,
            weights,
            s,
            t,
            #[trigger] after[i],
        ) by {
            let j = if i == best { before.len() - 1 } else { i };
            assert(after[i] == before[j]);
        }
    }
    assert(all_distinct(paths, after)) by {
        assert forall|i: int, j: int|
            #![trigger paths[i], paths[j]]
            0 <= i < j < paths.len() implies nodes_of(paths[i]) != nodes_of(
            paths[j],
        ) by {
            if j < paths0.len() {
                assert(nodes_of(paths0[i]) != nodes_of(paths0[j]));
            } else {
                assert(nodes_of(paths0[i]) != nodes_of(before[best]));
            }
        }
        assert forall|i: int, j: int|
            #![trigger after[i], after[j]]
            0 <= i < j < after.len() implies nodes_of(after[i]) != nodes_of(
            after[j],
        ) by {
            let x = if i == best { before.len() - 1 } else { i };
            let y = if j == best { before.len() - 1 } else { j };
            assert(after[i] == before[x] && after[j] == before[y]);
            if x < y {
                assert(nodes_of(before[x]) != nodes_of(before[y]));
            } else {
                assert(nodes_of(before[y]) != nodes_of(before[x]));
            }
        }
        assert forall|i: int, j: int|
            #![trigger paths[i], after[j]]
            0 <= i < paths.len() && 0 <= j < after.len() implies nodes_of(
            paths[i],
        ) != nodes_of(after[j]) by {
            let y = if j == best { before.len() - 1 } else { j };
            assert(after[j] == before[y]);
            if i < paths0.len() {
                assert(nodes_of(paths0[i]) != nodes_of(before[y]));
            } else {
                if y < best {
                    assert(nodes_of(before[y]) != nodes_of(before[best]));
                } else {
                    assert(nodes_of(before[best]) != nodes_of(before[y]));
                }
            }
        }
    }
}

/// Moving a candidate to the paths keeps what they branch off.
proof fn lemma_picked_spurs<C: Cost>(
    snap: CsrSnapshot,
    weights: Seq<C>,
    t: int,
    paths0: Seq<Found<C>>,
    before: Seq<Found<C>>,
    after: Seq<Found<C>>,
    best: int,
)
    requires
        0 <= best < before.len(),
        after == before.update(best, before.last()).drop_last(),
        all_spurred(snap, weights, t, paths0, before),
        branching(snap, weights, t, paths0),
    ensures
        all_spurred(snap, weights, t, paths0.push(before[best]), after),
        branching(snap, weights, t, paths0.push(before[best])),
{
    let paths = paths0.push(before[best]);
    assert(paths.take(paths0.len() as int) =~= paths0);
    assert(branching(snap, weights, t, paths)) by {
        assert forall|i: int| 0 < i < paths.len() implies spurred(
            snap,
            weights,
            t,
            paths.take(i),
            #[trigger] paths[i],
        ) by {
            if i < paths0.len() {
                assert(paths.take(i) =~= paths0.take(i));
                assert(paths0[i] == paths[i]);
            } else {
                assert(spurred(snap, weights, t, paths0, before[best]));
            }
        }
    }
    assert(all_spurred(snap, weights, t, paths, after)) by {
        assert forall|i: int| 0 <= i < after.len() implies spurred(
            snap,
            weights,
            t,
            paths,
            #[trigger] after[i],
        ) by {
            let j = if i == best { before.len() - 1 } else { i };
            assert(after[i] == before[j]);
            lemma_spurred_later(snap, weights, t, paths0, paths, before[j]);
        }
    }
}

/// Moving a candidate to the paths keeps what is offered.
proof fn lemma_picked_offers<C: Cost>(
    snap: CsrSnapshot,
    weights: Seq<C>,
    t: int,
    paths0: Seq<Found<C>>,
    before: Seq<Found<C>>,
    after: Seq<Found<C>>,
    best: int,
)
    requires
        0 <= best < before.len(),
        after == before.update(best, before.last()).drop_last(),
        all_offered(snap, weights, t, paths0, before, paths0.len() as int),
    ensures
        all_offered(
            snap,
            weights,
            t,
            paths0.push(before[best]),
            after,
            paths0.len() as int,
        ),
{
    let paths = paths0.push(before[best]);
    lemma_moved(before, after, best);
    assert(paths.take(paths0.len() as int) =~= paths0);
    assert(paths[paths0.len() as int] == before[best]);
    assert forall|c: Found<C>| #[trigger] before.contains(c) implies after.contains(c)
        || paths.contains(c) by {}
    assert forall|a: int, j: int|
        0 <= a < paths0.len() && 0 <= j < nodes_of(paths[a]).len() - 1 implies #[trigger] offered(
        snap,
        weights,
        t,
        paths,
        after,
        a,
        j,
    ) by {
        assert(paths[a] == paths0[a]);
        assert(offered(snap, weights, t, paths0, before, a, j));
        lemma_offered_later(snap, weights, t, paths0, before, paths, after, a, j);
    }
}

/// The first path is proper, and no path is cheaper.
proof fn lemma_first_path<C: Cost>(
    snap: CsrSnapshot,
    weights: Seq<C>,
    s: int,
    t: int,
    f: Found<C>,
)
    requires
        snap.wf(),
        0 <= s < snap.n(),
        cheapest_open(snap, weights, anywhere(), s, t, f),
    ensures
        proper(snap, weights, s, t, f),
        C::exact() ==> cheapest_left(snap, weights, s, t, seq![f], 0),
{
    let all = anywhere();
    let ks = choose|ks: Seq<int>|
        #[trigger] follows(snap, all, s, ks) && walk_end(snap, s, ks) == t && walk_nodes(
            snap,
            s,
            ks,
        ) == nodes_of(f) && walk_cost(weights, ks) == f.cost;
    lemma_walk_path(snap, weights, all, s, ks);
    let p = nodes_of(f);
    if C::exact() {
        let js = lemma_path_walk(snap, weights, all, p);
        C::law_bounded(path_cost(snap, weights, p), f.cost);
        assert(follows(snap, all, s, js));
        C::law_exact(f.cost, path_cost(snap, weights, p), C::zero());
        assert forall|q: Seq<int>|
            #[trigger] simple_path(snap.edges@, s, t, q) && path_cost(
                snap,
                weights,
                q,
            ).bounded() implies f.cost.le(path_cost(snap, weights, q)) by {
            lemma_walk_in_graph(snap, q, s);
            let qs = lemma_path_walk(snap, weights, all, q);
            assert(follows(snap, all, s, qs));
        }
        assert(cheapest_left(snap, weights, s, t, seq![f], 0));
    }
}

/// A candidate that is picked is a cheapest path of those that are left.
proof fn lemma_pick_is_cheapest<C: Cost>(
    snap: CsrSnapshot,
    weights: Seq<C>,
    s: int,
    t: int,
    paths: Seq<Found<C>>,
    candidates: Seq<Found<C>>,
    longer: Seq<Found<C>>,
    best: int,
)
    requires
        C::exact(),
        paths.len() > 0,
        0 <= best < candidates.len(),
        longer == paths.push(candidates[best]),
        all_proper(snap, weights, s, t, paths),
        all_proper(snap, weights, s, t, candidates),
        all_covered(snap, weights, s, t, paths, candidates, paths.len() as int),
        forall|i: int|
            0 <= i < candidates.len() ==> picked_over(candidates[best], #[trigger] candidates[i]),
        forall|i: int|
            0 <= i < paths.len() ==> #[trigger] cheapest_left(snap, weights, s, t, paths, i),
    ensures
        forall|i: int|
            0 <= i < longer.len() ==> #[trigger] cheapest_left(snap, weights, s, t, longer, i),
{
    assert forall|i: int| 0 <= i < longer.len() implies #[trigger] cheapest_left(
        snap,
        weights,
        s,
        t,
        longer,
        i,
    ) by {
        assert forall|q: Seq<int>|
            #[trigger] simple_path(snap.edges@, s, t, q) && path_cost(snap, weights, q).bounded()
                && (forall|b: int|
                0 <= b < i ==> nodes_of(#[trigger] longer[b]) != q) implies longer[i].cost.le(
            path_cost(snap, weights, q),
        ) by {
            assert forall|b: int| 0 <= b < i implies nodes_of(#[trigger] paths[b]) != q by {
                assert(longer[b] == paths[b]);
            }
            if i < paths.len() {
                assert(cheapest_left(snap, weights, s, t, paths, i));
                assert(longer[i] == paths[i]);
            } else {
                let c = lemma_cover(snap, weights, s, t, paths, candidates, q);
                let k = choose|k: int| 0 <= k < candidates.len() && candidates[k] == c;
                assert(proper(snap, weights, s, t, candidates[k]));
                assert(picked_over(candidates[best], candidates[k]));
                C::law_order(candidates[best].cost, c.cost, path_cost(snap, weights, q));
            }
        }
    }
}

/// The paths of a result, by node id and cost.
pub open spec fn shown<C: Cost>(
    ids: Seq<NodeId>,
    list: Seq<Found<C>>,
    r: Seq<WeightedPath<C>>,
) -> bool {
    &&& r.len() == list.len()
    &&& forall|i: int|
        0 <= i < r.len() ==> (#[trigger] r[i]).nodes@ == ids_of(ids, nodes_of(list[i]))
            && r[i].total_weight == list[i].cost
}

/// The `k` cheapest simple paths from `src` to `dst`, where slot `k` weighs
/// `weights[k]`, cheapest first.
pub fn shortest_path_top_k<C: Cost>(
    snap: &CsrSnapshot,
    weights: &Vec<C>,
    src: NodeId,
    dst: NodeId,
    k: usize,
) -> (r: Vec<WeightedPath<C>>)
    requires
        snap.wf(),
        weights@.len() == snap.edges@.len(),
    ensures
        ({
            let ids = snap.dense_to_id@;
            let s = dense_of(ids, src);
            let t = dense_of(ids, dst);
            if k == 0 {
                r@.len() == 0
            } else if src == dst {
                r@.len() == 1 && r@[0].nodes@ == seq![src] && r@[0].total_weight == C::zero()
            } else if !ids.contains(src) || !ids.contains(dst) {
                r@.len() == 0
            } else {
                exists|list: Seq<Found<C>>|
                    #[trigger] top_paths(*snap, weights@, s, t, k as nat, list) && shown(
                        ids,
                        list,
                        r@,
                    )
            }
        }),
{
    let mut out: Vec<WeightedPath<C>> = Vec::new();
    if k == 0 {
        return out;
    }
    if src == dst {
        let nodes: Vec<NodeId> = vec![src];
        assert(nodes@ =~= seq![src]);
        out.push(WeightedPath { nodes, total_weight: C::zero_cost() });
        return out;
    }
    let (s, t) = match (snap.dense(src), snap.dense(dst)) {
        (Some(s), Some(t)) => (s, t),
        _ => {
            return out;
        },
    };
    let ghost ids = snap.dense_to_id@;
    proof {
        lemma_index_unique(ids, s as int);
        lemma_index_unique(ids, t as int);
        assert(ids.contains(src) && ids.contains(dst));
    }
    let paths: Vec<Found<C>> = cheapest_paths(snap, weights, s, t, k);
    let mut i: usize = 0;
    while i < paths.len()
        invariant
            snap.wf(),
            ids == snap.dense_to_id@,
            i <= paths@.len(),
            all_proper(*snap, weights@, s as int, t as int, paths@),
            out@.len() == i,
            forall|x: int|
                0 <= x < i ==> (#[trigger] out@[x]).nodes@ == ids_of(ids, nodes_of(paths@[x]))
                    && out@[x].total_weight == paths@[x].cost,
        decreases paths@.len() - i,
    {
        let ghost p = nodes_of(paths@[i as int]);
        assert(proper(*snap, weights@, s as int, t as int, paths@[i as int]));
        let mut nodes: Vec<NodeId> = Vec::new();
        let mut x: usize = 0;
        while x < paths[i].nodes.len()
            invariant
                snap.wf(),
                ids == snap.dense_to_id@,
                i < paths@.len(),
                p == nodes_of(paths@[i as int]),
                in_graph(*snap, p),
                x <= paths@[i as int].nodes@.len(),
                nodes@ == ids_of(ids, p.take(x as int)),
            decreases paths@[i as int].nodes@.len() - x,
        {
            let v: usize = paths[i].nodes[x];
            assert(p[x as int] == v);
            assert(0 <= p[x as int] < snap.n());
            nodes.push(snap.dense_to_id[v]);
            assert(nodes@ =~= ids_of(ids, p.take(x + 1)));
            x = x + 1;
        }
        assert(p.take(x as int) =~= p);
        out.push(WeightedPath { nodes, total_weight: paths[i].cost });
        i = i + 1;
    }
    assert(dense_of(ids, src) == s && dense_of(ids, dst) == t);
    assert(shown(ids, paths@, out@));
    assert(top_paths(*snap, weights@, s as int, t as int, k as nat, paths@));
    out
}

} // verus!
