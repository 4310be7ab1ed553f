//! The cheapest simple path, by trying every one. This is for weights with which going
//! round a cycle pays, where no other search settles.

use vstd::prelude::*;

use crate::cost::Cost;
use crate::csr::CsrSnapshot;
use crate::paths::as_nodes;
use crate::rounds::{lemma_nodes_of_walk, onward, position};
use crate::sets::{contains_id, contains_pair, ids_in, pairs_in};
use crate::simple_paths::lemma_distinct_bound;
use crate::weighted::{follows, in_row, lemma_walk_in_range, walk_cost, walk_end, walk_nodes};

verus! {

/// `ks` is a walk of bounded cost from `s` to `t` over admitted steps that visits no
/// node twice.
pub open spec fn simple_to<C: Cost>(
    snap: CsrSnapshot,
    weights: Seq<C>,
    open: spec_fn(int, int) -> bool,
    s: int,
    t: int,
    ks: Seq<int>,
) -> bool {
    &&& follows(snap, open, s, ks)
    &&& walk_end(snap, s, ks) == t
    &&& walk_nodes(snap, s, ks).no_duplicates()
    &&& walk_cost(weights, ks).bounded()
}

/// The nodes `p` are those of such a walk, which costs `c`.
pub open spec fn simple_at<C: Cost>(
    snap: CsrSnapshot,
    weights: Seq<C>,
    open: spec_fn(int, int) -> bool,
    s: int,
    t: int,
    p: Seq<int>,
    c: C,
) -> bool {
    exists|ks: Seq<int>|
        #[trigger] simple_to(snap, weights, open, s, t, ks) && walk_nodes(snap, s, ks) == p
            && walk_cost(weights, ks) == c
}

/// What has been found is such a walk.
spec fn found_right<C: Cost>(
    snap: CsrSnapshot,
    weights: Seq<C>,
    open: spec_fn(int, int) -> bool,
    s: int,
    t: int,
    best: Option<(Vec<usize>, C)>,
) -> bool {
    best matches Some((p, c)) ==> simple_at(snap, weights, open, s, t, as_nodes(p@), c)
}

/// Something has been found that is no dearer.
pub open spec fn beaten<C: Cost>(best: Option<(Vec<usize>, C)>, c: C) -> bool {
    best matches Some(f) && f.1.le(c)
}

/// `ks` begins with `base`.
spec fn begins(ks: Seq<int>, base: Seq<int>) -> bool {
    base.len() <= ks.len() && ks.take(base.len() as int) == base
}

/// What a walk of bounded cost begins with has a bounded cost.
proof fn lemma_beginning_bounded<C: Cost>(weights: Seq<C>, ks: Seq<int>, i: int)
    requires
        0 <= i <= ks.len(),
        walk_cost(weights, ks).bounded(),
    ensures
        walk_cost(weights, ks.take(i)).bounded(),
    decreases ks.len(),
{
    if i == ks.len() {
        assert(ks.take(i) =~= ks);
    } else {
        let rest = ks.drop_last();
        C::law_bounded(walk_cost(weights, rest), weights[ks.last()]);
        lemma_beginning_bounded(weights, rest, i);
        assert(rest.take(i) =~= ks.take(i));
    }
}

/// What is known of a walk that goes on from another by slot `k`.
proof fn lemma_goes_on<C: Cost>(
    snap: CsrSnapshot,
    weights: Seq<C>,
    open: spec_fn(int, int) -> bool,
    s: int,
    t: int,
    js: Seq<int>,
    ks: Seq<int>,
)
    requires
        simple_to(snap, weights, open, s, t, js),
        begins(js, ks),
        ks.len() < js.len(),
    ensures
        in_row(snap, walk_end(snap, s, ks), js[ks.len() as int]),
        open(walk_end(snap, s, ks), snap.col_idx@[js[ks.len() as int]] as int),
        !walk_nodes(snap, s, ks).contains(snap.col_idx@[js[ks.len() as int]] as int),
        walk_cost(weights, ks).plus(weights[js[ks.len() as int]]).bounded(),
        begins(js, ks.push(js[ks.len() as int])),
        walk_end(snap, s, ks) != t,
{
    let i = ks.len() as int;
    let k = js[i];
    let more = js.take(i + 1);
    assert(more =~= ks.push(k));
    assert(more.drop_last() =~= ks);
    lemma_nodes_of_walk(snap, open, s, js, i + 1);
    lemma_nodes_of_walk(snap, open, s, js, i);
    lemma_nodes_of_walk(snap, open, s, js, js.len() as int);
    assert(js.take(js.len() as int) =~= js);
    lemma_beginning_bounded(weights, js, i + 1);
    let nodes = walk_nodes(snap, s, js);
    assert(nodes[i] != nodes[js.len() as int]);
    let v = snap.col_idx@[k] as int;
    if walk_nodes(snap, s, ks).contains(v) {
        let j = walk_nodes(snap, s, ks).index_of(v);
        lemma_nodes_of_walk(snap, open, s, ks, 0);
        lemma_nodes_of_walk(snap, open, s, ks, j);
        lemma_nodes_of_walk(snap, open, s, js, j);
        assert(js.take(j) =~= ks.take(j));
        assert(nodes[j] == nodes[i + 1]);
    }
}

/// Tries every way on from the end of a path.
fn try_on<C: Cost>(
    snap: &CsrSnapshot,
    weights: &Vec<C>,
    nodes: &ahash::AHashSet<u64>,
    pairs: &ahash::AHashSet<(u64, u64)>,
    live: &Vec<bool>,
    t: usize,
    path: &mut Vec<usize>,
    cost: C,
    best: &mut Option<(Vec<usize>, C)>,
    s: Ghost<int>,
    ks: Ghost<Seq<int>>,
)
    requires
        snap.wf(),
        weights@.len() == snap.edges@.len(),
        live@.len() == snap.n(),
        t < snap.n(),
        0 <= s@ < snap.n(),
        old(path)@.len() > 0,
        follows(*snap, onward(ids_in(*nodes), pairs_in(*pairs), live@), s@, ks@),
        walk_nodes(*snap, s@, ks@) == as_nodes(old(path)@),
        as_nodes(old(path)@).no_duplicates(),
        walk_cost(weights@, ks@) == cost,
        cost.bounded(),
        found_right(
            *snap,
            weights@,
            onward(ids_in(*nodes), pairs_in(*pairs), live@),
            s@,
            t as int,
            *old(best),
        ),
    ensures
        final(path)@ == old(path)@,
        found_right(
            *snap,
            weights@,
            onward(ids_in(*nodes), pairs_in(*pairs), live@),
            s@,
            t as int,
            *final(best),
        ),
        *old(best) matches Some(f) ==> beaten(*final(best), f.1),
        forall|js: Seq<int>| #[trigger]
            simple_to(
                *snap,
                weights@,
                onward(ids_in(*nodes), pairs_in(*pairs), live@),
                s@,
                t as int,
                js,
            ) && begins(js, ks@) ==> beaten(*final(best), walk_cost(weights@, js)),
    decreases snap.n() - old(path)@.len(),
{
    let ghost open = onward(ids_in(*nodes), pairs_in(*pairs), live@);
    let ghost p = path@;
    let ghost first = *best;
    let len: usize = path.len();
    let u: usize = path[len - 1];
    proof {
        if let Some(f) = first {
            C::law_order(f.1, f.1, f.1);
        }
        let all = as_nodes(p);
        assert(all.last() == u);
        lemma_nodes_of_walk(*snap, open, s@, ks@, ks@.len() as int);
        assert(ks@.take(ks@.len() as int) =~= ks@);
        assert(walk_end(*snap, s@, ks@) == u);
        lemma_walk_in_range(*snap, open, s@, ks@);
        assert forall|i: int| 0 <= i < all.len() implies 0 <= #[trigger] all[i] < snap.n() by {
            lemma_nodes_of_walk(*snap, open, s@, ks@, i);
            lemma_walk_in_range(*snap, open, s@, ks@.take(i));
        }
        lemma_distinct_bound(all, snap.n());
    }
    if u == t {
        proof {
            assert(simple_to(*snap, weights@, open, s@, t as int, ks@));
            assert forall|js: Seq<int>| #[trigger]
                simple_to(*snap, weights@, open, s@, t as int, js) && begins(js, ks@) implies js
                == ks@ by {
                if js.len() > ks@.len() {
                    lemma_goes_on(*snap, weights@, open, s@, t as int, js, ks@);
                }
                assert(js.take(js.len() as int) =~= js);
            }
            C::law_order(cost, cost, cost);
        }
        let better: bool = match best {
            None => true,
            Some(f) => cost.less(&f.1),
        };
        proof {
            if let Some(f) = first {
                C::law_order(cost, f.1, cost);
            }
        }
        if better {
            let found: Vec<usize> = copied(path);
            *best = Some((found, cost));
        }
        return;
    }
    let lo: usize = snap.row_ptr[u];
    let hi: usize = snap.row_ptr[u + 1];
    let mut k: usize = lo;
    proof {
        assert forall|js: Seq<int>| #[trigger]
            simple_to(*snap, weights@, open, s@, t as int, js) && begins(js, ks@) && ks@.len()
                < js.len() implies lo <= js[ks@.len() as int] < hi by {
            lemma_goes_on(*snap, weights@, open, s@, t as int, js, ks@);
        }
    }
    while k < hi
        invariant
            snap.wf(),
            weights@.len() == snap.edges@.len(),
            live@.len() == snap.n(),
            t < snap.n(),
            0 <= s@ < snap.n(),
            open == onward(ids_in(*nodes), pairs_in(*pairs), live@),
            path@ == p,
            p.len() == len,
            len <= snap.n(),
            p[len - 1] == u,
            u < snap.n(),
            p == old(path)@,
            follows(*snap, open, s@, ks@),
            walk_end(*snap, s@, ks@) == u,
            walk_nodes(*snap, s@, ks@) == as_nodes(p),
            as_nodes(p).no_duplicates(),
            walk_cost(weights@, ks@) == cost,
            found_right(*snap, weights@, open, s@, t as int, *best),
            first == *old(best),
            first matches Some(f) ==> beaten(*best, f.1),
            lo == snap.row_ptr@[u as int],
            hi == snap.row_ptr@[u + 1],
            lo <= k <= hi <= snap.edges@.len(),
            forall|js: Seq<int>| #[trigger]
                simple_to(*snap, weights@, open, s@, t as int, js) && begins(js, ks@) && ks@.len()
                    < js.len() && js[ks@.len() as int] < k ==> beaten(
                    *best,
                    walk_cost(weights@, js),
                ),
        decreases hi - k,
    {
        let v: usize = snap.col_idx[k] as usize;
        let next: C = cost.added(&weights[k]);
        let ghost had = *best;
        let admitted: bool = live[v] && !contains_id(nodes, v as u64) && !contains_pair(
            pairs,
            u as u64,
            v as u64,
        );
        let fresh: bool = position(path, v).is_none();
        proof {
            assert(in_row(*snap, u as int, k as int));
            if let Some(f) = had {
                C::law_order(f.1, f.1, f.1);
            }
            assert(fresh <==> !as_nodes(p).contains(v as int)) by {
                if as_nodes(p).contains(v as int) {
                    let i = as_nodes(p).index_of(v as int);
                    assert(p[i] == v);
                }
                if !fresh {
                    let i = choose|i: int| 0 <= i < p.len() && p[i] == v;
                    assert(as_nodes(p)[i] == v as int);
                }
            }
            assert forall|js: Seq<int>| #[trigger]
                simple_to(*snap, weights@, open, s@, t as int, js) && begins(js, ks@) && ks@.len()
                    < js.len() && js[ks@.len() as int] == k implies admitted && fresh
                && next.bounded() && begins(js, ks@.push(k as int)) by {
                lemma_goes_on(*snap, weights@, open, s@, t as int, js, ks@);
            }
        }
        if admitted && fresh && next.is_bounded() {
            let ghost more = ks@.push(k as int);
            path.push(v);
            proof {
                assert(more.drop_last() =~= ks@);
                assert(as_nodes(path@) =~= as_nodes(p).push(v as int));
                assert(as_nodes(path@).no_duplicates()) by {
                    let all = as_nodes(path@);
                    assert forall|i: int, j: int| 0 <= i < j < all.len() implies all[i]
                        != all[j] by {
                        if j < p.len() {
                            assert(as_nodes(p)[i] != as_nodes(p)[j]);
                        } else {
                            assert(as_nodes(p).contains(as_nodes(p)[i]));
                        }
                    }
                }
            }
            proof {
                let all = as_nodes(path@);
                lemma_nodes_of_walk(*snap, open, s@, more, 0);
                assert forall|i: int| 0 <= i < all.len() implies 0 <= #[trigger] all[i]
                    < snap.n() by {
                    lemma_nodes_of_walk(*snap, open, s@, more, i);
                    lemma_walk_in_range(*snap, open, s@, more.take(i));
                }
                lemma_distinct_bound(all, snap.n());
            }
            try_on(snap, weights, nodes, pairs, live, t, path, next, best, s, Ghost(more));
            path.pop();
            proof {
                assert(path@ =~= p);
                assert forall|c: C| #[trigger] beaten(had, c) implies beaten(*best, c) by {
                    let (now, was) = (best->0, had->0);
                    C::law_order(now.1, was.1, c);
                }
            }
        }
        k = k + 1;
    }
    proof {
        assert forall|js: Seq<int>| #[trigger]
            simple_to(*snap, weights@, open, s@, t as int, js) && begins(js, ks@) implies beaten(
            *best,
            walk_cost(weights@, js),
        ) by {
            if js.len() > ks@.len() {
                lemma_goes_on(*snap, weights@, open, s@, t as int, js, ks@);
            } else {
                assert(js.take(js.len() as int) =~= js);
            }
        }
    }
}

/// A copy of a path.
fn copied(path: &Vec<usize>) -> (more: Vec<usize>)
    ensures
        more@ == path@,
{
    let mut more: Vec<usize> = Vec::new();
    let mut i: usize = 0;
    while i < path.len()
        invariant
            i <= path@.len(),
            more@ == path@.take(i as int),
        decreases path@.len() - i,
    {
        more.push(path[i]);
        assert(more@ =~= path@.take(i + 1));
        i = i + 1;
    }
    assert(path@.take(i as int) =~= path@);
    more
}

/// The cheapest simple path from `s` to `t` over the steps that avoid `nodes` and `pairs`
/// and stay with the live nodes, whatever the weights.
pub(crate) fn cheapest_simple<C: Cost>(
    snap: &CsrSnapshot,
    weights: &Vec<C>,
    s: usize,
    t: usize,
    nodes: &ahash::AHashSet<u64>,
    pairs: &ahash::AHashSet<(u64, u64)>,
    live: &Vec<bool>,
) -> (best: Option<(Vec<usize>, C)>)
    requires
        snap.wf(),
        weights@.len() == snap.edges@.len(),
        live@.len() == snap.n(),
        s < snap.n(),
        t < snap.n(),
    ensures
        best matches Some((p, c)) ==> simple_at(
            *snap,
            weights@,
            onward(ids_in(*nodes), pairs_in(*pairs), live@),
            s as int,
            t as int,
            as_nodes(p@),
            c,
        ),
        forall|js: Seq<int>| #[trigger]
            simple_to(
                *snap,
                weights@,
                onward(ids_in(*nodes), pairs_in(*pairs), live@),
                s as int,
                t as int,
                js,
            ) ==> beaten(best, walk_cost(weights@, js)),
{
    let ghost open = onward(ids_in(*nodes), pairs_in(*pairs), live@);
    let ghost none = Seq::<int>::empty();
    let mut path: Vec<usize> = vec![s];
    let mut best: Option<(Vec<usize>, C)> = None;
    proof {
        C::law_bounded(C::zero(), C::zero());
        assert(as_nodes(path@) =~= seq![s as int]);
        assert(follows(*snap, open, s as int, none));
        assert forall|js: Seq<int>| begins(js, none) by {
            assert(js.take(0) =~= none);
        }
    }
    try_on(
        snap,
        weights,
        nodes,
        pairs,
        live,
        t,
        &mut path,
        C::zero_cost(),
        &mut best,
        Ghost(s as int),
        Ghost(none),
    );
    best
}

} // verus!
