//! The cheapest path between two nodes.

use vstd::prelude::*;

use crate::cost::Cost;
use crate::csr::{edges_ascending, leaving, lemma_index_unique, CsrSnapshot, Edge};
use crate::entries::{entry_row, incoming_entries, lemma_entry_at, lemma_entry_of};
use crate::error::Error;
use crate::paths::{as_nodes, ids_of};
use crate::schema::{EdgeId, NodeId};
use crate::sets::{ids_in, new_ids, new_pairs, pairs_in};
use crate::simple_paths::lemma_distinct_bound;
use crate::traversal::dense_of;
use crate::weighted::{
    anywhere, around, cheapest_walks, follows, in_row, least_costs, lemma_relaxed_is_least,
    lemma_tree_walk, lemma_walk_in_range, relaxed, tree_path, tree_walk, walk_cost, walk_end,
    walk_nodes, Tree,
};

verus! {

/// A path and what it costs.
#[derive(Debug, Clone)]
pub struct WeightedPath<C> {
    pub nodes: Vec<NodeId>,
    pub total_weight: C,
}

/// Some walk from `s` to `v` costs `c`.
pub open spec fn attained<C: Cost>(
    snap: CsrSnapshot,
    weights: Seq<C>,
    s: int,
    v: int,
    c: C,
) -> bool {
    exists|ks: Seq<int>|
        #[trigger] follows(snap, anywhere(), s, ks) && walk_end(snap, s, ks) == v && walk_cost(
            weights,
            ks,
        ) == c
}

/// Every cost is bounded and is that of some walk.
pub open spec fn all_attained<C: Cost>(
    snap: CsrSnapshot,
    weights: Seq<C>,
    s: int,
    dist: Seq<Option<C>>,
) -> bool {
    forall|v: int|
        0 <= v < dist.len() && (#[trigger] dist[v]) is Some ==> dist[v]->0.bounded() && attained(
            snap,
            weights,
            s,
            v,
            dist[v]->0,
        )
}

/// No walk of at most `j` admitted steps is cheaper than the costs.
pub open spec fn least_within<C: Cost>(
    snap: CsrSnapshot,
    weights: Seq<C>,
    open: spec_fn(int, int) -> bool,
    s: int,
    dist: Seq<Option<C>>,
    j: nat,
) -> bool {
    forall|ks: Seq<int>|
        #[trigger] follows(snap, open, s, ks) && ks.len() <= j && walk_cost(
            weights,
            ks,
        ).bounded() ==> {
            let d = dist[walk_end(snap, s, ks)];
            d is Some && d->0.le(walk_cost(weights, ks))
        }
}

/// `after` is at most `before`, everywhere.
pub open spec fn no_worse<C: Cost>(before: Seq<Option<C>>, after: Seq<Option<C>>) -> bool {
    &&& before.len() == after.len()
    &&& forall|v: int|
        0 <= v < before.len() && (#[trigger] before[v]) is Some ==> after[v] is Some
            && after[v]->0.le(before[v]->0)
}

/// Some node that `before` has no cost for, or a greater one, has a cost in `after`.
pub open spec fn improved<C: Cost>(before: Seq<Option<C>>, after: Seq<Option<C>>) -> bool {
    exists|v: int|
        0 <= v < after.len() && (#[trigger] after[v]) is Some && (before[v] is None
            || !before[v]->0.le(after[v]->0))
}

/// Following any admitted step from `before` leads to nothing cheaper than `after`.
pub open spec fn stepped<C: Cost>(
    snap: CsrSnapshot,
    weights: Seq<C>,
    open: spec_fn(int, int) -> bool,
    before: Seq<Option<C>>,
    after: Seq<Option<C>>,
    u: int,
) -> bool {
    forall|k: int|
        #[trigger] in_row(snap, u, k) && open(u, snap.col_idx@[k] as int) && before[u]->0.plus(
            weights[k],
        ).bounded() ==> {
            let d = after[snap.col_idx@[k] as int];
            d is Some && d->0.le(before[u]->0.plus(weights[k]))
        }
}

proof fn lemma_no_worse_refl<C: Cost>(dist: Seq<Option<C>>)
    ensures
        no_worse(dist, dist),
{
    assert forall|v: int| 0 <= v < dist.len() && (#[trigger] dist[v]) is Some implies dist[v]->0.le(
        dist[v]->0,
    ) by {
        C::law_order(dist[v]->0, dist[v]->0, dist[v]->0);
    }
}

/// The walks that costs were found by. A record holds a node and the record of the
/// walk without its last step; the first is that of the start.
pub struct Trail {
    pub records: Vec<(usize, usize)>,
    /// The record of the walk to each node that is reached.
    pub at: Vec<usize>,
    pub walks: Ghost<Seq<Seq<int>>>,
}

impl Trail {
    /// Record `r` goes on from an earlier one.
    pub open spec fn goes_on(&self, snap: CsrSnapshot, s: int, r: int) -> bool {
        let walk = self.walks@[r];
        let (node, before) = self.records@[r];
        &&& 0 <= before < r
        &&& walk.len() > 0
        &&& walk.drop_last() == self.walks@[before as int]
        &&& follows(snap, anywhere(), s, walk)
        &&& node == walk_end(snap, s, walk)
    }

    /// Every cost is that of the walk that is on record.
    pub open spec fn backs<C: Cost>(
        &self,
        snap: CsrSnapshot,
        weights: Seq<C>,
        s: int,
        dist: Seq<Option<C>>,
    ) -> bool {
        &&& self.at@.len() == dist.len()
        &&& self.records@.len() == self.walks@.len()
        &&& self.walks@.len() > 0
        &&& self.walks@[0] == Seq::<int>::empty()
        &&& forall|r: int| 0 < r < self.walks@.len() ==> #[trigger] self.goes_on(snap, s, r)
        &&& forall|v: int|
            0 <= v < dist.len() && (#[trigger] dist[v]) is Some ==> {
                let r = self.at@[v] as int;
                &&& 0 <= r < self.walks@.len()
                &&& walk_end(snap, s, self.walks@[r]) == v
                &&& walk_cost(weights, self.walks@[r]) == dist[v]->0
            }
    }
}

/// A walk that goes on from one that is on record.
proof fn lemma_on_record<C: Cost>(
    snap: CsrSnapshot,
    weights: Seq<C>,
    s: int,
    dist: Seq<Option<C>>,
    was: Trail,
    now: Trail,
    u: int,
    k: int,
    v: usize,
)
    requires
        was.backs(snap, weights, s, dist),
        0 <= u < dist.len(),
        v < dist.len(),
        dist[u] is Some,
        in_row(snap, u, k),
        snap.col_idx@[k] == v,
        now.records@ == was.records@.push((v, was.at@[u])),
        now.walks@ == was.walks@.push(was.walks@[was.at@[u] as int].push(k)),
        now.at@ == was.at@.update(v as int, was.walks@.len() as usize),
        was.walks@.len() <= usize::MAX,
    ensures
        now.backs(snap, weights, s, dist.update(v as int, Some(dist[u]->0.plus(weights[k])))),
{
    let after = dist.update(v as int, Some(dist[u]->0.plus(weights[k])));
    let from = was.at@[u] as int;
    let walk = was.walks@[from].push(k);
    let last = was.walks@.len() as int;
    assert(walk.drop_last() =~= was.walks@[from]);
    assert(follows(snap, anywhere(), s, was.walks@[from])) by {
        if from > 0 {
            assert(was.goes_on(snap, s, from));
        }
    }
    assert(now.walks@[last] == walk);
    assert forall|r: int| 0 < r < now.walks@.len() implies #[trigger] now.goes_on(snap, s, r) by {
        if r < last {
            assert(was.goes_on(snap, s, r));
            assert(now.walks@[r] == was.walks@[r]);
            assert(now.records@[r] == was.records@[r]);
            assert(now.walks@[was.records@[r].1 as int] == was.walks@[was.records@[r].1 as int]);
        } else {
            assert(now.records@[last] == (v, was.at@[u]));
        }
    }
    assert forall|x: int| 0 <= x < after.len() && (#[trigger] after[x]) is Some implies {
        let r = now.at@[x] as int;
        &&& 0 <= r < now.walks@.len()
        &&& walk_end(snap, s, now.walks@[r]) == x
        &&& walk_cost(weights, now.walks@[r]) == after[x]->0
    } by {
        if x != v {
            assert(dist[x] is Some);
            assert(now.walks@[was.at@[x] as int] == was.walks@[was.at@[x] as int]);
        }
    }
}

/// The nodes of the walk that is on record for `t`.
fn recorded_nodes<C: Cost>(
    snap: &CsrSnapshot,
    weights: Ghost<Seq<C>>,
    trail: &Trail,
    dist: Ghost<Seq<Option<C>>>,
    s: usize,
    t: usize,
) -> (nodes: Vec<usize>)
    requires
        snap.wf(),
        s < snap.n(),
        t < snap.n(),
        dist@.len() == snap.n(),
        dist@[t as int] is Some,
        trail.backs(*snap, weights@, s as int, dist@),
    ensures
        as_nodes(nodes@) == walk_nodes(*snap, s as int, trail.walks@[trail.at@[t as int] as int]),
        forall|i: int| 0 <= i < nodes@.len() ==> (#[trigger] nodes@[i]) < snap.n(),
{
    let ghost walk = trail.walks@[trail.at@[t as int] as int];
    let mut rev: Vec<usize> = Vec::new();
    let mut r: usize = trail.at[t];
    assert(walk_nodes(*snap, s as int, walk) + back_nodes(rev@) =~= walk_nodes(
        *snap,
        s as int,
        walk,
    ));
    while r > 0
        invariant
            snap.wf(),
            s < snap.n(),
            trail.backs(*snap, weights@, s as int, dist@),
            r < trail.walks@.len(),
            forall|i: int| 0 <= i < rev@.len() ==> (#[trigger] rev@[i]) < snap.n(),
            walk_nodes(*snap, s as int, walk) == walk_nodes(
                *snap,
                s as int,
                trail.walks@[r as int],
            ) + back_nodes(rev@),
        decreases r,
    {
        let (node, before): (usize, usize) = trail.records[r];
        let ghost rev0 = rev@;
        proof {
            assert(trail.goes_on(*snap, s as int, r as int));
            lemma_walk_in_range(*snap, anywhere(), s as int, trail.walks@[r as int]);
        }
        rev.push(node);
        proof {
            lemma_back_nodes_push(rev@);
            assert(rev@.drop_last() =~= rev0);
            let rest = walk_nodes(*snap, s as int, trail.walks@[before as int]);
            assert(rest.push(node as int) + back_nodes(rev0) =~= rest + back_nodes(rev@));
        }
        r = before;
    }
    rev.push(s);
    proof {
        lemma_back_nodes_push(rev@);
        assert(rev@.drop_last() =~= rev@.take(rev@.len() - 1));
        assert(walk_nodes(*snap, s as int, trail.walks@[0]) == seq![s as int]);
    }
    let mut nodes: Vec<usize> = Vec::new();
    let mut i: usize = rev.len();
    while i > 0
        invariant
            i <= rev@.len(),
            forall|k: int| 0 <= k < rev@.len() ==> (#[trigger] rev@[k]) < snap.n(),
            nodes@.len() == rev@.len() - i,
            forall|k: int|
                0 <= k < nodes@.len() ==> #[trigger] nodes@[k] == rev@[rev@.len() - 1 - k],
        decreases i,
    {
        i = i - 1;
        nodes.push(rev[i]);
    }
    assert(as_nodes(nodes@) =~= back_nodes(rev@));
    nodes
}

/// One round of relaxing every edge.
fn relax_round<C: Cost>(
    snap: &CsrSnapshot,
    weights: &Vec<C>,
    s: Ghost<int>,
    dist: &mut Vec<Option<C>>,
    trail: &mut Trail,
) -> (changed: bool)
    requires
        snap.wf(),
        weights@.len() == snap.edges@.len(),
        old(dist)@.len() == snap.n(),
        0 <= s@ < snap.n(),
        all_attained(*snap, weights@, s@, old(dist)@),
        old(trail).backs(*snap, weights@, s@, old(dist)@),
    ensures
        final(dist)@.len() == snap.n(),
        all_attained(*snap, weights@, s@, final(dist)@),
        final(trail).backs(*snap, weights@, s@, final(dist)@),
        no_worse(old(dist)@, final(dist)@),
        !changed ==> final(dist)@ == old(dist)@,
        changed ==> improved(old(dist)@, final(dist)@),
        forall|u: int|
            0 <= u < snap.n() && old(dist)@[u] is Some ==> #[trigger] stepped(
                *snap,
                weights@,
                anywhere(),
                old(dist)@,
                final(dist)@,
                u,
            ),
{
    let ghost before = dist@;
    let n: usize = snap.dense_to_id.len();
    let mut changed: bool = false;
    let mut u: usize = 0;
    proof {
        lemma_no_worse_refl(before);
    }
    while u < n
        invariant
            snap.wf(),
            n == snap.n(),
            weights@.len() == snap.edges@.len(),
            before.len() == n,
            dist@.len() == n,
            0 <= s@ < n,
            all_attained(*snap, weights@, s@, dist@),
            trail.backs(*snap, weights@, s@, dist@),
            no_worse(before, dist@),
            !changed ==> dist@ == before,
            changed ==> improved(before, dist@),
            u <= n,
            forall|x: int|
                0 <= x < u && before[x] is Some ==> #[trigger] stepped(
                    *snap,
                    weights@,
                    anywhere(),
                    before,
                    dist@,
                    x,
                ),
        decreases n - u,
    {
        if dist[u].is_some() {
            let lo: usize = snap.row_ptr[u];
            let hi: usize = snap.row_ptr[u + 1];
            let mut k: usize = lo;
            while k < hi
                invariant
                    snap.wf(),
                    n == snap.n(),
                    weights@.len() == snap.edges@.len(),
                    before.len() == n,
                    dist@.len() == n,
                    0 <= s@ < n,
                    u < n,
                    dist@[u as int] is Some,
                    all_attained(*snap, weights@, s@, dist@),
                    trail.backs(*snap, weights@, s@, dist@),
                    no_worse(before, dist@),
                    !changed ==> dist@ == before,
                    changed ==> improved(before, dist@),
                    forall|x: int|
                        0 <= x < u && before[x] is Some ==> #[trigger] stepped(
                            *snap,
                            weights@,
                            anywhere(),
                            before,
                            dist@,
                            x,
                        ),
                    lo == snap.row_ptr@[u as int],
                    hi == snap.row_ptr@[u + 1],
                    lo <= k <= hi <= snap.edges@.len(),
                    before[u as int] is Some ==> forall|j: int|
                        #[trigger] in_row(*snap, u as int, j) && j < k && before[u as int]->0.plus(
                            weights@[j],
                        ).bounded() ==> {
                            let d = dist@[snap.col_idx@[j] as int];
                            d is Some && d->0.le(before[u as int]->0.plus(weights@[j]))
                        },
                decreases hi - k,
            {
                let v: usize = snap.col_idx[k] as usize;
                let ghost dist0 = dist@;
                let base: C = match dist[u] {
                    Some(c) => c,
                    None => C::zero_cost(),
                };
                let candidate: C = base.added(&weights[k]);
                let better: bool = match dist[v] {
                    None => true,
                    Some(c) => candidate.less(&c),
                };
                proof {
                    assert(in_row(*snap, u as int, k as int));
                    C::law_order(candidate, candidate, candidate);
                    if before[u as int] is Some {
                        C::law_plus(base, before[u as int]->0, weights@[k as int]);
                        C::law_bounded(candidate, before[u as int]->0.plus(weights@[k as int]));
                    }
                    if dist0[v as int] is Some {
                        C::law_order(dist0[v as int]->0, candidate, candidate);
                        C::law_order(candidate, dist0[v as int]->0, candidate);
                        if before[u as int] is Some {
                            C::law_order(
                                dist0[v as int]->0,
                                candidate,
                                before[u as int]->0.plus(weights@[k as int]),
                            );
                        }
                    }
                }
                if better && candidate.is_bounded() {
                    dist.set(v, Some(candidate));
                    changed = true;
                    let ghost was = *trail;
                    let from: usize = trail.at[u];
                    let record: usize = trail.records.len();
                    trail.records.push((v, from));
                    trail.at.set(v, record);
                    trail.walks = Ghost(
                        trail.walks@.push(trail.walks@[from as int].push(k as int)),
                    );
                    proof {
                        lemma_on_record(
                            *snap,
                            weights@,
                            s@,
                            dist0,
                            was,
                            *trail,
                            u as int,
                            k as int,
                            v,
                        );
                        lemma_attained_step(*snap, weights@, s@, u as int, base, k as int);
                        assert forall|x: int|
                            0 <= x < before.len() && (#[trigger] before[x])
                                is Some implies dist@[x] is Some && dist@[x]->0.le(
                            before[x]->0,
                        ) by {
                            assert(dist0[x] is Some && dist0[x]->0.le(before[x]->0));
                            if x == v {
                                C::law_order(candidate, dist0[x]->0, before[x]->0);
                            }
                        }
                        assert(improved(before, dist@)) by {
                            assert(dist@[v as int] is Some);
                            if before[v as int] is Some {
                                assert(dist0[v as int]->0.le(before[v as int]->0));
                                C::law_order(
                                    dist0[v as int]->0,
                                    before[v as int]->0,
                                    candidate,
                                );
                            }
                        }
                        assert forall|x: int|
                            0 <= x < u && before[x] is Some implies #[trigger] stepped(
                            *snap,
                            weights@,
                            anywhere(),
                            before,
                            dist@,
                            x,
                        ) by {
                            assert(stepped(*snap, weights@, anywhere(), before, dist0, x));
                            assert forall|j: int|
                                #[trigger] in_row(*snap, x, j) && before[x]->0.plus(
                                    weights@[j],
                                ).bounded() implies {
                                let d = dist@[snap.col_idx@[j] as int];
                                d is Some && d->0.le(before[x]->0.plus(weights@[j]))
                            } by {
                                if snap.col_idx@[j] == v {
                                    C::law_order(
                                        candidate,
                                        dist0[v as int]->0,
                                        before[x]->0.plus(weights@[j]),
                                    );
                                }
                            }
                        }
                        if before[u as int] is Some {
                            assert forall|j: int|
                                #[trigger] in_row(*snap, u as int, j) && j < k + 1
                                    && before[u as int]->0.plus(
                                    weights@[j],
                                ).bounded() implies {
                                let d = dist@[snap.col_idx@[j] as int];
                                d is Some && d->0.le(before[u as int]->0.plus(weights@[j]))
                            } by {
                                if j < k && snap.col_idx@[j] == v {
                                    C::law_order(
                                        candidate,
                                        dist0[v as int]->0,
                                        before[u as int]->0.plus(weights@[j]),
                                    );
                                }
                            }
                        }
                    }
                }
                k = k + 1;
            }
            proof {
                if before[u as int] is Some {
                    assert(stepped(*snap, weights@, anywhere(), before, dist@, u as int));
                }
            }
        }
        u = u + 1;
    }
    changed
}

proof fn lemma_attained_step<C: Cost>(
    snap: CsrSnapshot,
    weights: Seq<C>,
    s: int,
    u: int,
    c: C,
    k: int,
)
    requires
        attained(snap, weights, s, u, c),
        in_row(snap, u, k),
    ensures
        attained(snap, weights, s, snap.col_idx@[k] as int, c.plus(weights[k])),
{
    let ks = choose|ks: Seq<int>|
        #[trigger] follows(snap, anywhere(), s, ks) && walk_end(snap, s, ks) == u && walk_cost(
            weights,
            ks,
        ) == c;
    let more = ks.push(k);
    assert(more.drop_last() =~= ks);
    assert(follows(snap, anywhere(), s, more));
}

/// A round takes the bound one edge further.
pub proof fn lemma_round<C: Cost>(
    snap: CsrSnapshot,
    weights: Seq<C>,
    open: spec_fn(int, int) -> bool,
    s: int,
    before: Seq<Option<C>>,
    after: Seq<Option<C>>,
    j: nat,
)
    requires
        snap.wf(),
        0 <= s < snap.n(),
        before.len() == snap.n(),
        no_worse(before, after),
        forall|u: int|
            0 <= u < snap.n() && before[u] is Some ==> #[trigger] stepped(
                snap,
                weights,
                open,
                before,
                after,
                u,
            ),
        least_within(snap, weights, open, s, before, j),
    ensures
        least_within(snap, weights, open, s, after, j + 1),
{
    assert forall|ks: Seq<int>|
        #[trigger] follows(snap, open, s, ks) && ks.len() <= j + 1 && walk_cost(
            weights,
            ks,
        ).bounded() implies {
        let d = after[walk_end(snap, s, ks)];
        d is Some && d->0.le(walk_cost(weights, ks))
    } by {
        lemma_walk_in_range(snap, open, s, ks);
        let v = walk_end(snap, s, ks);
        if ks.len() <= j {
            assert(before[v] is Some);
            C::law_order(after[v]->0, before[v]->0, walk_cost(weights, ks));
        } else {
            let rest = ks.drop_last();
            let u = walk_end(snap, s, rest);
            let w = weights[ks.last()];
            assert(follows(snap, open, s, rest));
            lemma_walk_in_range(snap, open, s, rest);
            C::law_bounded(walk_cost(weights, rest), w);
            assert(before[u] is Some);
            let c = before[u]->0;
            C::law_plus(c, walk_cost(weights, rest), w);
            C::law_bounded(c.plus(w), walk_cost(weights, ks));
            assert(stepped(snap, weights, open, before, after, u));
            assert(in_row(snap, u, ks.last()));
            C::law_order(after[v]->0, c.plus(w), walk_cost(weights, ks));
        }
    }
}

/// Some walk from `s` is cheaper than every walk of fewer than `n` edges to the
/// same node: going round a cycle makes it cheaper.
pub open spec fn cheaper_beyond<C: Cost>(
    snap: CsrSnapshot,
    weights: Seq<C>,
    s: int,
) -> bool {
    exists|ks: Seq<int>|
        #[trigger] follows(snap, anywhere(), s, ks) && walk_cost(weights, ks).bounded() && forall|
            js: Seq<int>,
        |
            #[trigger] follows(snap, anywhere(), s, js) && walk_end(snap, s, js) == walk_end(
                snap,
                s,
                ks,
            ) && js.len() < snap.n() ==> !walk_cost(weights, js).le(walk_cost(weights, ks))
}

/// The least costs from `s` by rounds of relaxation, which negative weights do
/// not disturb, and the walks that they were found by. There are none where going round a cycle makes a walk cheaper.
fn corrected_costs<C: Cost>(snap: &CsrSnapshot, weights: &Vec<C>, s: usize) -> (r: Option<
    (Vec<Option<C>>, Trail),
>)
    requires
        snap.wf(),
        weights@.len() == snap.edges@.len(),
        s < snap.n(),
    ensures
        r matches Some((dist, trail)) ==> least_costs(
            *snap,
            weights@,
            anywhere(),
            s as int,
            dist@,
        ) && trail.backs(*snap, weights@, s as int, dist@),
        r is None ==> cheaper_beyond(*snap, weights@, s as int),
{
    let n: usize = snap.dense_to_id.len();
    let mut dist: Vec<Option<C>> = Vec::new();
    let mut at: Vec<usize> = Vec::new();
    let mut i: usize = 0;
    while i < n
        invariant
            i <= n,
            dist@.len() == i,
            at@.len() == i,
            forall|v: int| 0 <= v < i ==> #[trigger] at@[v] == 0,
            forall|v: int| 0 <= v < i ==> (#[trigger] dist@[v]) is None,
        decreases n - i,
    {
        dist.push(None);
        at.push(0);
        i = i + 1;
    }
    dist.set(s, Some(C::zero_cost()));
    let mut records: Vec<(usize, usize)> = Vec::new();
    records.push((s, 0));
    let ghost start = Seq::<Seq<int>>::empty().push(Seq::empty());
    let mut trail: Trail = Trail { records, at, walks: Ghost(start) };
    proof {
        let none = Seq::<int>::empty();
        C::law_bounded(C::zero(), C::zero());
        C::law_order(C::zero(), C::zero(), C::zero());
        assert(follows(*snap, anywhere(), s as int, none));
        assert(attained(*snap, weights@, s as int, s as int, C::zero()));
        assert(least_within(*snap, weights@, anywhere(), s as int, dist@, 0));
    }
    let mut round: usize = 0;
    let ghost mut last = dist@;
    while round < n
        invariant
            snap.wf(),
            n == snap.n(),
            weights@.len() == snap.edges@.len(),
            s < n,
            round <= n,
            dist@.len() == n,
            last.len() == n,
            dist@[s as int] is Some && dist@[s as int]->0.le(C::zero()),
            all_attained(*snap, weights@, s as int, dist@),
            trail.backs(*snap, weights@, s as int, dist@),
            least_within(*snap, weights@, anywhere(), s as int, dist@, round as nat),
            round > 0 ==> improved(last, dist@) && least_within(
                *snap,
                weights@,
                anywhere(),
                s as int,
                last,
                (round - 1) as nat,
            ),
        decreases n - round,
    {
        let ghost before = dist@;
        let changed: bool = relax_round(
            snap,
            weights,
            Ghost(s as int),
            &mut dist,
            &mut trail,
        );
        if !changed {
            proof {
                assert forall|u: int| 0 <= u < snap.n() && dist@[u] is Some implies
                    #[trigger] relaxed(*snap, weights@, anywhere(), dist@, u) by {
                    assert(stepped(*snap, weights@, anywhere(), before, dist@, u));
                }
                assert forall|ks: Seq<int>|
                    #[trigger] follows(*snap, anywhere(), s as int, ks) && walk_cost(
                        weights@,
                        ks,
                    ).bounded() implies {
                    let d = dist@[walk_end(*snap, s as int, ks)];
                    d is Some && d->0.le(walk_cost(weights@, ks))
                } by {
                    lemma_relaxed_is_least(*snap, weights@, anywhere(), s as int, dist@, ks);
                }
                assert forall|v: int|
                    0 <= v < dist@.len() && (#[trigger] dist@[v])
                        is Some implies dist@[v]->0.bounded() && exists|ks: Seq<int>|
                    #[trigger] follows(*snap, anywhere(), s as int, ks) && walk_end(
                        *snap,
                        s as int,
                        ks,
                    ) == v && walk_cost(weights@, ks) == dist@[v]->0 by {
                    assert(attained(*snap, weights@, s as int, v, dist@[v]->0));
                }
            }
            return Some((dist, trail));
        }
        proof {
            lemma_round(*snap, weights@, anywhere(), s as int, before, dist@, round as nat);
            C::law_order(dist@[s as int]->0, before[s as int]->0, C::zero());
            last = before;
        }
        round = round + 1;
    }
    proof {
        let v = choose|v: int|
            0 <= v < dist@.len() && (#[trigger] dist@[v]) is Some && (last[v] is None
                || !last[v]->0.le(dist@[v]->0));
        assert(attained(*snap, weights@, s as int, v, dist@[v]->0));
        let ks = choose|ks: Seq<int>|
            #[trigger] follows(*snap, anywhere(), s as int, ks) && walk_end(
                *snap,
                s as int,
                ks,
            ) == v && walk_cost(weights@, ks) == dist@[v]->0;
        assert forall|js: Seq<int>|
            #[trigger] follows(*snap, anywhere(), s as int, js) && walk_end(
                *snap,
                s as int,
                js,
            ) == v && js.len() < snap.n() implies !walk_cost(weights@, js).le(dist@[v]->0) by {
            if walk_cost(weights@, js).le(dist@[v]->0) {
                C::law_bounded(walk_cost(weights@, js), dist@[v]->0);
                C::law_order(last[v]->0, walk_cost(weights@, js), dist@[v]->0);
            }
        }
    }
    None
}

/// An edge from `u` that leads to `cur` at its cost, up to rounding.
pub open spec fn leads_back<C: Cost>(
    snap: CsrSnapshot,
    weights: Seq<C>,
    dist: Seq<Option<C>>,
    cur: int,
    e: Edge,
) -> bool {
    dist[e.src] is Some && exists|k: int|
        #[trigger] in_row(snap, e.src, k) && snap.edge_id@[k] == e.id && dist[e.src]->0.plus(
            weights[k],
        ).near(dist[cur]->0)
}

/// The source of the first edge of `row` that leads to `cur` at its cost.
pub open spec fn first_back<C: Cost>(
    snap: CsrSnapshot,
    weights: Seq<C>,
    dist: Seq<Option<C>>,
    cur: int,
    row: Seq<Edge>,
) -> Option<int>
    decreases row.len(),
{
    if row.len() == 0 {
        None
    } else {
        match first_back(snap, weights, dist, cur, row.drop_last()) {
            Some(u) => Some(u),
            None => if leads_back(snap, weights, dist, cur, row.last()) {
                Some(row.last().src)
            } else {
                None
            },
        }
    }
}

/// The path found by going back from `cur`, at every node along the first
/// incoming edge, in the order of the adjacency entries, that accounts for its cost.
/// There is none where that does not come to `s` in `fuel` steps.
pub open spec fn trace<C: Cost>(
    snap: CsrSnapshot,
    weights: Seq<C>,
    dist: Seq<Option<C>>,
    s: int,
    cur: int,
    fuel: nat,
) -> Option<Seq<int>>
    decreases fuel,
{
    if cur == s {
        Some(seq![s])
    } else if fuel == 0 {
        None
    } else {
        match first_back(
            snap,
            weights,
            dist,
            cur,
            entry_row(snap.dense_to_id@, snap.edges@, cur),
        ) {
            None => None,
            Some(u) => match trace(snap, weights, dist, s, u, (fuel - 1) as nat) {
                None => None,
                Some(p) => Some(p.push(cur)),
            },
        }
    }
}

/// Filtering keeps edges in ascending id order.
pub proof fn lemma_filter_ascending(edges: Seq<Edge>, p: spec_fn(Edge) -> bool)
    requires
        edges_ascending(edges),
    ensures
        edges_ascending(edges.filter(p)),
    decreases edges.len(),
{
    reveal(Seq::filter);
    if edges.len() > 0 {
        let rest = edges.drop_last();
        assert(edges_ascending(rest)) by {
            assert forall|i: int, j: int| 0 <= i < j < rest.len() implies rest[i].id
                < rest[j].id by {
                assert(edges[i].id < edges[j].id);
            }
        }
        lemma_filter_ascending(rest, p);
        let kept = rest.filter(p);
        if p(edges.last()) {
            assert forall|i: int| 0 <= i < kept.len() implies (#[trigger] kept[i]).id
                < edges.last().id by {
                assert(kept.contains(kept[i]));
                rest.lemma_filter_contains_rev(p, kept[i]);
                let j = choose|j: int| 0 <= j < rest.len() && rest[j] == kept[i];
                assert(edges[j].id < edges[edges.len() - 1].id);
            }
        }
    }
}

/// The slot of an edge in the row of `u`.
pub fn slot_of_edge(snap: &CsrSnapshot, u: usize, id: EdgeId) -> (slot: Option<usize>)
    requires
        snap.wf(),
        u < snap.n(),
    ensures
        slot matches Some(k) ==> in_row(*snap, u as int, k as int) && snap.edge_id@[k as int] == id
            && forall|j: int|
            #[trigger] in_row(*snap, u as int, j) && snap.edge_id@[j] == id ==> j == k,
        slot is None ==> forall|j: int|
            #[trigger] in_row(*snap, u as int, j) ==> snap.edge_id@[j] != id,
{
    let ghost row = snap.out_row(u as int);
    let start: usize = snap.row_ptr[u];
    let end: usize = snap.row_ptr[u + 1];
    proof {
        lemma_filter_ascending(snap.edges@, leaving(u as int));
        assert forall|i: int, j: int|
            #![trigger snap.edge_id@[i], snap.edge_id@[j]]
            start <= i < j < end implies snap.edge_id@[i] < snap.edge_id@[j] by {
            assert(row[i - start].id < row[j - start].id);
        }
    }
    let mut lo: usize = start;
    let mut hi: usize = end;
    while lo < hi
        invariant
            start <= lo <= hi <= end <= snap.edge_id@.len(),
            start == snap.row_ptr@[u as int],
            end == snap.row_ptr@[u + 1],
            forall|i: int, j: int|
                #![trigger snap.edge_id@[i], snap.edge_id@[j]]
                start <= i < j < end ==> snap.edge_id@[i] < snap.edge_id@[j],
            forall|i: int| start <= i < lo ==> #[trigger] snap.edge_id@[i] < id,
            forall|i: int| hi <= i < end ==> #[trigger] snap.edge_id@[i] > id,
        decreases hi - lo,
    {
        let mid: usize = lo + (hi - lo) / 2;
        let v: EdgeId = snap.edge_id[mid];
        if v == id {
            return Some(mid);
        }
        if v < id {
            lo = mid + 1;
        } else {
            hi = mid;
        }
    }
    None
}

fn step_back<C: Cost>(
    snap: &CsrSnapshot,
    weights: &Vec<C>,
    dist: &Vec<Option<C>>,
    cur: usize,
    cost: C,
) -> (u: Option<usize>)
    requires
        snap.wf(),
        weights@.len() == snap.edges@.len(),
        dist@.len() == snap.n(),
        cur < snap.n(),
        dist@[cur as int] == Some(cost),
    ensures
        match u {
            None => first_back(
                *snap,
                weights@,
                dist@,
                cur as int,
                entry_row(snap.dense_to_id@, snap.edges@, cur as int),
            ) is None,
            Some(x) => x < snap.n() && dist@[x as int] is Some && first_back(
                *snap,
                weights@,
                dist@,
                cur as int,
                entry_row(snap.dense_to_id@, snap.edges@, cur as int),
            ) == Some(x as int),
        },
{
    let ghost row = entry_row(snap.dense_to_id@, snap.edges@, cur as int);
    let list: Vec<(usize, EdgeId)> = incoming_entries(snap, cur);
    let mut k: usize = 0;
    assert(row.take(0) =~= Seq::empty());
    while k < list.len()
        invariant
            snap.wf(),
            weights@.len() == snap.edges@.len(),
            dist@.len() == snap.n(),
            cur < snap.n(),
            dist@[cur as int] == Some(cost),
            row == entry_row(snap.dense_to_id@, snap.edges@, cur as int),
            list@.len() == row.len(),
            forall|j: int|
                0 <= j < list@.len() ==> (#[trigger] list@[j]).0 == row[j].src && list@[j].1
                    == row[j].id && list@[j].0 < snap.n(),
            k <= list@.len(),
            first_back(*snap, weights@, dist@, cur as int, row.take(k as int)) is None,
        decreases list@.len() - k,
    {
        let (u, id): (usize, EdgeId) = list[k];
        proof {
            assert(row.take(k + 1).drop_last() =~= row.take(k as int));
            assert(row.take(k + 1).last() == row[k as int]);
            assert(row[k as int].src == u && row[k as int].id == id);
        }
        if let Some(c) = dist[u] {
            if let Some(slot) = slot_of_edge(snap, u, id) {
                assert(in_row(*snap, u as int, slot as int));
                if c.added(&weights[slot]).is_near(&cost) {
                    proof {
                        assert(leads_back(*snap, weights@, dist@, cur as int, row[k as int]));
                        lemma_first_back_prefix(
                            *snap,
                            weights@,
                            dist@,
                            cur as int,
                            row,
                            k + 1,
                        );
                    }
                    return Some(u);
                }
            }
        }
        k = k + 1;
    }
    assert(row.take(k as int) =~= row);
    None
}

/// What a prefix of a row has found first, the row has found first.
proof fn lemma_first_back_prefix<C: Cost>(
    snap: CsrSnapshot,
    weights: Seq<C>,
    dist: Seq<Option<C>>,
    cur: int,
    row: Seq<Edge>,
    i: int,
)
    requires
        0 <= i <= row.len(),
        first_back(snap, weights, dist, cur, row.take(i)) is Some,
    ensures
        first_back(snap, weights, dist, cur, row) == first_back(
            snap,
            weights,
            dist,
            cur,
            row.take(i),
        ),
    decreases row.len() - i,
{
    if i == row.len() {
        assert(row.take(i) =~= row);
    } else {
        assert(row.take(i + 1).drop_last() =~= row.take(i));
        lemma_first_back_prefix(snap, weights, dist, cur, row, i + 1);
    }
}

/// Whether some weight is negative.
pub open spec fn some_negative<C: Cost>(weights: Seq<C>) -> bool {
    exists|k: int| 0 <= k < weights.len() && !C::zero().le(#[trigger] weights[k])
}

pub(crate) fn any_negative<C: Cost>(weights: &Vec<C>) -> (b: bool)
    ensures
        b == some_negative(weights@),
{
    let mut k: usize = 0;
    while k < weights.len()
        invariant
            k <= weights@.len(),
            forall|j: int| 0 <= j < k ==> C::zero().le(#[trigger] weights@[j]),
        decreases weights@.len() - k,
    {
        if weights[k].less(&C::zero_cost()) {
            return true;
        }
        k = k + 1;
    }
    false
}

/// What a caller learns where no cheapest path is defined.
pub const NEGATIVE_CYCLE: &'static str =
    "a negative-weight cycle is reachable from the source, so no shortest path is defined";

/// Going round `ks` from `u` makes every walk that comes to `u` cheaper.
pub open spec fn lowers<C: Cost>(
    snap: CsrSnapshot,
    weights: Seq<C>,
    u: int,
    ks: Seq<int>,
) -> bool {
    &&& follows(snap, anywhere(), u, ks)
    &&& walk_end(snap, u, ks) == u
    &&& forall|c: C| #[trigger] c.bounded() ==> !c.le(c.plus(walk_cost(weights, ks)))
}

/// A cycle that makes walks cheaper can be reached from `s`.
pub open spec fn lowering_cycle<C: Cost>(snap: CsrSnapshot, weights: Seq<C>, s: int) -> bool {
    exists|js: Seq<int>, ks: Seq<int>|
        #[trigger] follows(snap, anywhere(), s, js) && walk_cost(weights, js).bounded()
            && #[trigger] lowers(snap, weights, walk_end(snap, s, js), ks)
}

/// Where costs are exact and a cycle that makes walks cheaper can be reached, there are no
/// least costs, and so no cheapest path is given.
pub proof fn lemma_negative_cycle<C: Cost>(
    snap: CsrSnapshot,
    weights: Seq<C>,
    s: int,
    dist: Seq<Option<C>>,
)
    requires
        snap.wf(),
        C::exact(),
        0 <= s < snap.n(),
        lowering_cycle(snap, weights, s),
    ensures
        !least_costs(snap, weights, anywhere(), s, dist),
{
    if least_costs(snap, weights, anywhere(), s, dist) {
        let (js, ks) = choose|js: Seq<int>, ks: Seq<int>|
            #[trigger] follows(snap, anywhere(), s, js) && walk_cost(weights, js).bounded()
                && #[trigger] lowers(snap, weights, walk_end(snap, s, js), ks);
        let u = walk_end(snap, s, js);
        lemma_walk_in_range(snap, anywhere(), s, js);
        let d = dist[u]->0;
        assert(dist[u] is Some);
        let way = choose|way: Seq<int>|
            #[trigger] follows(snap, anywhere(), s, way) && walk_end(snap, s, way) == u
                && walk_cost(weights, way) == d;
        let round = walk_cost(weights, ks);
        lemma_walks_join(snap, weights, s, way, ks);
        C::law_order(d, d.plus(round), d);
        C::law_bounded(d.plus(round), d);
        assert(follows(snap, anywhere(), s, way + ks));
    }
}

/// `nodes` are those of a walk from `s` to `t` that costs `c`.
pub open spec fn walk_at<C: Cost>(
    snap: CsrSnapshot,
    weights: Seq<C>,
    s: int,
    t: int,
    c: C,
    nodes: Seq<int>,
) -> bool {
    exists|ks: Seq<int>|
        #[trigger] follows(snap, anywhere(), s, ks) && walk_end(snap, s, ks) == t && walk_cost(
            weights,
            ks,
        ) == c && walk_nodes(snap, s, ks) == nodes
}

/// The answer that the least costs give: the traced path and its cost, or, where the
/// trace runs in circles, some walk of that cost; without negative weights it visits no
/// node twice.
pub open spec fn answers<C: Cost>(
    snap: CsrSnapshot,
    weights: Seq<C>,
    s: int,
    t: int,
    dist: Seq<Option<C>>,
    r: Option<WeightedPath<C>>,
) -> bool {
    match dist[t] {
        None => r is None,
        Some(c) => r matches Some(path) && path.total_weight == c && exists|p: Seq<int>|
            path.nodes@ == #[trigger] ids_of(snap.dense_to_id@, p) && match trace(
                snap,
                weights,
                dist,
                s,
                t,
                snap.n(),
            ) {
                Some(q) => p == q,
                None => walk_at(snap, weights, s, t, c, p) && (!some_negative(weights)
                    ==> p.no_duplicates()),
            },
    }
}

/// The ids of nodes.
fn named(snap: &CsrSnapshot, nodes: &Vec<usize>) -> (ids: Vec<NodeId>)
    requires
        snap.wf(),
        forall|i: int| 0 <= i < nodes@.len() ==> (#[trigger] nodes@[i]) < snap.n(),
    ensures
        ids@ == ids_of(snap.dense_to_id@, as_nodes(nodes@)),
{
    let mut ids: Vec<NodeId> = Vec::new();
    let mut i: usize = 0;
    while i < nodes.len()
        invariant
            snap.wf(),
            forall|k: int| 0 <= k < nodes@.len() ==> (#[trigger] nodes@[k]) < snap.n(),
            i <= nodes@.len(),
            ids@.len() == i,
            forall|k: int|
                0 <= k < i ==> #[trigger] ids@[k] == snap.dense_to_id@[nodes@[k] as int],
        decreases nodes@.len() - i,
    {
        ids.push(snap.dense_to_id[nodes[i]]);
        i = i + 1;
    }
    assert(ids@ =~= ids_of(snap.dense_to_id@, as_nodes(nodes@)));
    ids
}

/// Cheapest path from `src` to `dst`, where slot `k` weighs `weights[k]`.
///
/// Dijkstra's algorithm, or rounds of relaxation where a weight is negative. The
/// path is traced back from `dst`; where weights of zero close a cycle the trace
/// may run in circles, and then the answer is the walk that the search found.
pub fn shortest_path_dijkstra<C: Cost>(
    snap: &CsrSnapshot,
    weights: &Vec<C>,
    src: NodeId,
    dst: NodeId,
) -> (r: Result<Option<WeightedPath<C>>, Error>)
    requires
        snap.wf(),
        weights@.len() == snap.edges@.len(),
    ensures
        ({
            let ids = snap.dense_to_id@;
            let s = dense_of(ids, src);
            let t = dense_of(ids, dst);
            if src == dst {
                r matches Ok(Some(path)) && path.nodes@ == seq![src] && path.total_weight
                    == C::zero()
            } else if !ids.contains(src) || !ids.contains(dst) {
                r matches Ok(None)
            } else {
                &&& C::exact() && lowering_cycle(*snap, weights@, s) ==> r is Err
                &&& match r {
                    Err(e) => e == Error::InvalidArgument(NEGATIVE_CYCLE) && some_negative(weights@)
                        && cheaper_beyond(*snap, weights@, s),
                    Ok(found) => exists|dist: Seq<Option<C>>|
                        #[trigger] least_costs(*snap, weights@, anywhere(), s, dist) && answers(
                            *snap,
                            weights@,
                            s,
                            t,
                            dist,
                            found,
                        ),
                }
            }
        }),
{
    if src == dst {
        let nodes: Vec<NodeId> = vec![src];
        assert(nodes@ =~= seq![src]);
        return Ok(Some(WeightedPath { nodes, total_weight: C::zero_cost() }));
    }
    let (s, t) = match (snap.dense(src), snap.dense(dst)) {
        (Some(s), Some(t)) => (s, t),
        _ => {
            return Ok(None);
        },
    };
    let ghost ids = snap.dense_to_id@;
    proof {
        lemma_index_unique(ids, s as int);
        lemma_index_unique(ids, t as int);
        assert(ids.contains(src) && ids.contains(dst));
    }
    let (dist, kept): (Vec<Option<C>>, Vec<usize>) = if any_negative(weights) {
        match corrected_costs(snap, weights, s) {
            None => {
                return Err(Error::InvalidArgument(NEGATIVE_CYCLE));
            },
            Some((dist, trail)) => {
                let kept: Vec<usize> = match dist[t] {
                    None => Vec::new(),
                    Some(c) => {
                        let kept: Vec<usize> = recorded_nodes::<C>(
                            snap,
                            Ghost(weights@),
                            &trail,
                            Ghost(dist@),
                            s,
                            t,
                        );
                        proof {
                            let r = trail.at@[t as int] as int;
                            if r > 0 {
                                assert(trail.goes_on(*snap, s as int, r));
                            }
                            assert(follows(*snap, anywhere(), s as int, trail.walks@[r]));
                            assert(walk_at(
                                *snap,
                                weights@,
                                s as int,
                                t as int,
                                c,
                                as_nodes(kept@),
                            ));
                        }
                        kept
                    },
                };
                (dist, kept)
            },
        }
    } else {
        let nodes: ahash::AHashSet<u64> = new_ids();
        let pairs: ahash::AHashSet<(u64, u64)> = new_pairs();
        proof {
            assert forall|k: int| 0 <= k < weights@.len() implies C::zero().le(
                #[trigger] weights@[k],
            ) by {}
        }
        let tree: Tree<C> = cheapest_walks(snap, weights, s, &nodes, &pairs);
        proof {
            let open = around(ids_in(nodes), pairs_in(pairs));
            assert(open =~= anywhere()) by {
                assert forall|u: int, v: int| #[trigger] open(u, v) == anywhere()(u, v) by {}
            }
        }
        let kept: Vec<usize> = match tree.dist[t] {
            None => Vec::new(),
            Some(c) => {
                let kept: Vec<usize> = tree_path(
                    snap,
                    Ghost(weights@),
                    Ghost(anywhere()),
                    &tree,
                    s,
                    t,
                );
                proof {
                    let ks = tree_walk(tree, s as int, t as int, snap.n());
                    lemma_distinct_bound(tree.order@, snap.n());
                    assert(tree.order@.contains(t as int));
                    lemma_tree_walk(
                        *snap,
                        weights@,
                        anywhere(),
                        s as int,
                        tree,
                        t as int,
                        snap.n(),
                    );
                    assert(follows(*snap, anywhere(), s as int, ks));
                }
                kept
            },
        };
        (tree.dist, kept)
    };
    assert(least_costs(*snap, weights@, anywhere(), s as int, dist@));
    proof {
        if C::exact() && lowering_cycle(*snap, weights@, s as int) {
            lemma_negative_cycle(*snap, weights@, s as int, dist@);
        }
    }
    let total: C = match dist[t] {
        None => {
            proof {
                let none: Option<WeightedPath<C>> = None;
                assert(dense_of(ids, src) == s && dense_of(ids, dst) == t);
                assert(dist@[t as int] is None);
                assert(answers(*snap, weights@, s as int, t as int, dist@, none));
            }
            return Ok(None);
        },
        Some(c) => c,
    };
    let n: usize = snap.dense_to_id.len();
    let mut rev: Vec<usize> = vec![t];
    let mut cur: usize = t;
    let mut left: usize = n;
    let ghost full = trace(*snap, weights@, dist@, s as int, t as int, n as nat);
    assert(rev@ =~= seq![t]);
    while cur != s
        invariant
            snap.wf(),
            weights@.len() == snap.edges@.len(),
            n == snap.n(),
            s < n,
            dist@.len() == n,
            cur < n,
            dist@[cur as int] is Some,
            rev@.len() > 0,
            rev@.last() == cur,
            forall|i: int| 0 <= i < rev@.len() ==> (#[trigger] rev@[i]) < n,
            full == (match trace(*snap, weights@, dist@, s as int, cur as int, left as nat) {
                None => None,
                Some(p) => Some(p + back_nodes(rev@.drop_last())),
            }),
            least_costs(*snap, weights@, anywhere(), s as int, dist@),
            forall|i: int| 0 <= i < kept@.len() ==> (#[trigger] kept@[i]) < n,
            walk_at(*snap, weights@, s as int, t as int, total, as_nodes(kept@)),
            !some_negative(weights@) ==> as_nodes(kept@).no_duplicates(),
            !(C::exact() && lowering_cycle(*snap, weights@, s as int)),
            dist@[t as int] == Some(total),
            full == trace(*snap, weights@, dist@, s as int, t as int, n as nat),
            src != dst,
            s as int == dense_of(snap.dense_to_id@, src),
            t as int == dense_of(snap.dense_to_id@, dst),
            snap.dense_to_id@.contains(src),
            snap.dense_to_id@.contains(dst),
        decreases left,
    {
        if left == 0 {
            assert(full is None);
            let nodes: Vec<NodeId> = named(snap, &kept);
            let path: WeightedPath<C> = WeightedPath { nodes, total_weight: total };
            assert(answers(*snap, weights@, s as int, t as int, dist@, Some(path)));
            return Ok(Some(path));
        }
        let cost: C = match dist[cur] {
            Some(c) => c,
            None => total,
        };
        match step_back(snap, weights, &dist, cur, cost) {
            None => {
                assert(full is None);
                let nodes: Vec<NodeId> = named(snap, &kept);
                let path: WeightedPath<C> = WeightedPath { nodes, total_weight: total };
                assert(answers(*snap, weights@, s as int, t as int, dist@, Some(path)));
                return Ok(Some(path));
            },
            Some(u) => {
                let ghost rev0 = rev@;
                rev.push(u);
                proof {
                    assert(rev@.drop_last() =~= rev0);
                    let rest = trace(
                        *snap,
                        weights@,
                        dist@,
                        s as int,
                        u as int,
                        (left - 1) as nat,
                    );
                    if let Some(p) = rest {
                        lemma_back_nodes_push(rev0);
                        assert(p.push(cur as int) + back_nodes(rev0.drop_last()) =~= p
                            + back_nodes(rev0));
                    }
                }
                cur = u;
                left = left - 1;
            },
        }
    }
    let mut nodes: Vec<NodeId> = Vec::new();
    let mut i: usize = rev.len();
    while i > 0
        invariant
            snap.wf(),
            ids == snap.dense_to_id@,
            n == snap.n(),
            i <= rev@.len(),
            forall|k: int| 0 <= k < rev@.len() ==> (#[trigger] rev@[k]) < n,
            nodes@.len() == rev@.len() - i,
            forall|k: int|
                0 <= k < nodes@.len() ==> #[trigger] nodes@[k] == ids[rev@[rev@.len() - 1
                    - k] as int],
        decreases i,
    {
        i = i - 1;
        nodes.push(snap.dense_to_id[rev[i]]);
    }
    proof {
        let p = seq![s as int] + back_nodes(rev@.drop_last());
        assert(full == Some(p));
        lemma_back_nodes_push(rev@);
        assert(p =~= back_nodes(rev@));
        assert(nodes@ =~= ids_of(ids, p));
        assert(answers(
            *snap,
            weights@,
            s as int,
            t as int,
            dist@,
            Some(WeightedPath { nodes, total_weight: total }),
        ));
    }
    Ok(Some(WeightedPath { nodes, total_weight: total }))
}

/// Nodes listed last first, in their order.
pub open spec fn back_nodes(rev: Seq<usize>) -> Seq<int> {
    Seq::new(rev.len(), |i: int| rev[rev.len() - 1 - i] as int)
}

proof fn lemma_back_nodes_push(rev: Seq<usize>)
    requires
        rev.len() > 0,
    ensures
        back_nodes(rev) == seq![rev.last() as int] + back_nodes(rev.drop_last()),
{
    assert(back_nodes(rev) =~= seq![rev.last() as int] + back_nodes(rev.drop_last()));
}

/// No walk from a reached node back to it leaves its cost as it was.
pub open spec fn no_free_cycle<C: Cost>(
    snap: CsrSnapshot,
    weights: Seq<C>,
    dist: Seq<Option<C>>,
) -> bool {
    forall|u: int, ks: Seq<int>|
        0 <= u < snap.n() && dist[u] is Some && ks.len() > 0 && #[trigger] follows(
            snap,
            anywhere(),
            u,
            ks,
        ) && walk_end(snap, u, ks) == u ==> dist[u]->0.plus(walk_cost(weights, ks)) != dist[u]->0
}

/// An edge that accounts for a cost is that of a slot whose weight makes up the rest.
proof fn lemma_back_slot<C: Cost>(
    snap: CsrSnapshot,
    weights: Seq<C>,
    dist: Seq<Option<C>>,
    v: int,
    e: Edge,
) -> (k: int)
    requires
        snap.wf(),
        C::exact(),
        dist.len() == snap.n(),
        0 <= v < snap.n(),
        dist[v] is Some,
        snap.edges@.contains(e),
        e.dst == v,
        leads_back(snap, weights, dist, v, e),
    ensures
        in_row(snap, e.src, k),
        snap.col_idx@[k] == v,
        dist[v] == Some(dist[e.src]->0.plus(weights[k])),
{
    let u = e.src;
    let k = choose|k: int|
        #[trigger] in_row(snap, u, k) && snap.edge_id@[k] == e.id && dist[u]->0.plus(
            weights[k],
        ).near(dist[v]->0);
    C::law_exact(dist[u]->0.plus(weights[k]), dist[v]->0, C::zero());
    let i = choose|i: int| 0 <= i < snap.edges@.len() && snap.edges@[i] == e;
    assert(0 <= u < snap.n());
    let row = snap.out_row(u);
    let f = row[k - snap.row_ptr@[u]];
    assert(row == snap.edges@.filter(leaving(u)));
    assert(row.contains(f));
    snap.edges@.lemma_filter_contains_rev(leaving(u), f);
    let j = choose|j: int| 0 <= j < snap.edges@.len() && snap.edges@[j] == f;
    assert(f.id == e.id);
    assert(i == j);
    k
}

/// A reached node other than the start has an incoming edge that accounts for its cost.
proof fn lemma_some_back<C: Cost>(
    snap: CsrSnapshot,
    weights: Seq<C>,
    dist: Seq<Option<C>>,
    s: int,
    v: int,
) -> (u: int)
    requires
        snap.wf(),
        weights.len() == snap.edges@.len(),
        C::exact(),
        0 <= s < snap.n(),
        least_costs(snap, weights, anywhere(), s, dist),
        0 <= v < snap.n(),
        v != s,
        dist[v] is Some,
    ensures
        first_back(
            snap,
            weights,
            dist,
            v,
            entry_row(snap.dense_to_id@, snap.edges@, v),
        ) == Some(u),
        0 <= u < snap.n(),
        dist[u] is Some,
        exists|k: int|
            #[trigger] in_row(snap, u, k) && snap.col_idx@[k] == v && dist[v] == Some(
                dist[u]->0.plus(weights[k]),
            ),
{
    let ks = choose|ks: Seq<int>|
        #[trigger] follows(snap, anywhere(), s, ks) && walk_end(snap, s, ks) == v && walk_cost(
            weights,
            ks,
        ) == dist[v]->0;
    let rest = ks.drop_last();
    let x = walk_end(snap, s, rest);
    let k = ks.last();
    let w = weights[k];
    assert(follows(snap, anywhere(), s, rest));
    lemma_walk_in_range(snap, anywhere(), s, rest);
    C::law_bounded(walk_cost(weights, rest), w);
    let c = dist[x]->0;
    assert(dist[x] is Some);
    C::law_plus(c, walk_cost(weights, rest), w);
    C::law_bounded(c.plus(w), dist[v]->0);
    assert(attained(snap, weights, s, x, c));
    lemma_attained_step(snap, weights, s, x, c, k);
    let more = choose|js: Seq<int>|
        #[trigger] follows(snap, anywhere(), s, js) && walk_end(snap, s, js) == v && walk_cost(
            weights,
            js,
        ) == c.plus(w);
    C::law_exact(c.plus(w), dist[v]->0, C::zero());
    assert(c.plus(w) == dist[v]->0);
    C::law_bounded(dist[v]->0, dist[v]->0);
    // The edge of slot `k` is an incoming edge of `v`.
    let out = snap.out_row(x);
    let e = out[k - snap.row_ptr@[x]];
    assert(out == snap.edges@.filter(leaving(x)));
    assert(out.contains(e));
    snap.edges@.lemma_filter_contains_rev(leaving(x), e);
    let i = choose|i: int| 0 <= i < snap.edges@.len() && snap.edges@[i] == e;
    let row = entry_row(snap.dense_to_id@, snap.edges@, v);
    let q = lemma_entry_of(snap.dense_to_id@, snap.edges@, v, i);
    assert(in_row(snap, x, k));
    assert(leads_back(snap, weights, dist, v, row[q]));
    lemma_first_back(snap, weights, dist, v, row, q);
    let u = first_back(snap, weights, dist, v, row)->0;
    let p = choose|p: int|
        0 <= p < row.len() && leads_back(snap, weights, dist, v, #[trigger] row[p]) && row[p].src
            == u;
    let z = lemma_entry_at(snap.dense_to_id@, snap.edges@, v, p);
    assert(snap.edges@.contains(row[p]));
    let y = lemma_back_slot(snap, weights, dist, v, row[p]);
    assert(0 <= snap.edges@[z].src < snap.n());
    u
}

/// Where some edge of a row accounts for a cost, a first one is found.
proof fn lemma_first_back<C: Cost>(
    snap: CsrSnapshot,
    weights: Seq<C>,
    dist: Seq<Option<C>>,
    v: int,
    row: Seq<Edge>,
    q: int,
)
    requires
        0 <= q < row.len(),
        leads_back(snap, weights, dist, v, row[q]),
    ensures
        first_back(snap, weights, dist, v, row) is Some,
        exists|p: int|
            0 <= p < row.len() && leads_back(snap, weights, dist, v, #[trigger] row[p])
                && row[p].src == first_back(snap, weights, dist, v, row)->0,
    decreases row.len(),
{
    let rest = row.drop_last();
    if first_back(snap, weights, dist, v, rest) is Some {
        lemma_found_back(snap, weights, dist, v, rest);
        let p = choose|p: int|
            0 <= p < rest.len() && leads_back(snap, weights, dist, v, #[trigger] rest[p])
                && rest[p].src == first_back(snap, weights, dist, v, rest)->0;
        assert(row[p] == rest[p]);
    } else {
        if q < rest.len() {
            assert(rest[q] == row[q]);
            lemma_first_back(snap, weights, dist, v, rest, q);
        }
        assert(row[row.len() - 1] == row.last());
    }
}

proof fn lemma_found_back<C: Cost>(
    snap: CsrSnapshot,
    weights: Seq<C>,
    dist: Seq<Option<C>>,
    v: int,
    row: Seq<Edge>,
)
    requires
        first_back(snap, weights, dist, v, row) is Some,
    ensures
        exists|p: int|
            0 <= p < row.len() && leads_back(snap, weights, dist, v, #[trigger] row[p])
                && row[p].src == first_back(snap, weights, dist, v, row)->0,
    decreases row.len(),
{
    let rest = row.drop_last();
    if first_back(snap, weights, dist, v, rest) is Some {
        lemma_found_back(snap, weights, dist, v, rest);
        let p = choose|p: int|
            0 <= p < rest.len() && leads_back(snap, weights, dist, v, #[trigger] rest[p])
                && rest[p].src == first_back(snap, weights, dist, v, rest)->0;
        assert(row[p] == rest[p]);
    } else {
        assert(row[row.len() - 1] == row.last());
    }
}

/// A walk with one more step in front of it.
proof fn lemma_step_before<C: Cost>(
    snap: CsrSnapshot,
    weights: Seq<C>,
    u: int,
    k: int,
    js: Seq<int>,
)
    requires
        C::exact(),
        in_row(snap, u, k),
        follows(snap, anywhere(), snap.col_idx@[k] as int, js),
    ensures
        follows(snap, anywhere(), u, seq![k] + js),
        walk_end(snap, u, seq![k] + js) == walk_end(snap, snap.col_idx@[k] as int, js),
        walk_nodes(snap, u, seq![k] + js) == seq![u] + walk_nodes(
            snap,
            snap.col_idx@[k] as int,
            js,
        ),
        walk_cost(weights, seq![k] + js) == weights[k].plus(walk_cost(weights, js)),
    decreases js.len(),
{
    let all = seq![k] + js;
    let v = snap.col_idx@[k] as int;
    if js.len() == 0 {
        assert(all =~= seq![k]);
        assert(all.drop_last() =~= Seq::empty());
        assert(follows(snap, anywhere(), u, all.drop_last()));
        assert(walk_nodes(snap, u, all.drop_last()) == seq![u]);
        assert(walk_cost(weights, all.drop_last()) == C::zero());
        assert(seq![u].push(v) =~= seq![u] + seq![v]);
        C::law_exact(weights[k], weights[k], weights[k]);
    } else {
        let rest = js.drop_last();
        assert(all.drop_last() =~= seq![k] + rest);
        lemma_step_before(snap, weights, u, k, rest);
        let x = snap.col_idx@[js.last()] as int;
        assert(seq![u] + walk_nodes(snap, v, rest).push(x) =~= (seq![u] + walk_nodes(
            snap,
            v,
            rest,
        )).push(x));
        C::law_exact(weights[k], walk_cost(weights, rest), weights[js.last()]);
    }
}

/// The nodes of a walk are the ends of its beginnings.
proof fn lemma_node_at(snap: CsrSnapshot, v: int, js: Seq<int>, i: int)
    requires
        follows(snap, anywhere(), v, js),
        0 <= i <= js.len(),
    ensures
        walk_nodes(snap, v, js).len() == js.len() + 1,
        walk_nodes(snap, v, js)[i] == walk_end(snap, v, js.take(i)),
        follows(snap, anywhere(), v, js.take(i)),
    decreases js.len(),
{
    if i == js.len() {
        assert(js.take(i) =~= js);
        if js.len() > 0 {
            lemma_node_at(snap, v, js.drop_last(), i - 1);
        }
    } else {
        assert(js.drop_last().take(i) =~= js.take(i));
        lemma_node_at(snap, v, js.drop_last(), i);
    }
}

/// What a trace has gone back over by the time that it is at `v`: a walk `js` that
/// visits no node twice, each of whose nodes costs what the walk adds to the cost of `v`.
spec fn gone_back<C: Cost>(
    snap: CsrSnapshot,
    weights: Seq<C>,
    dist: Seq<Option<C>>,
    v: int,
    js: Seq<int>,
) -> bool {
    &&& 0 <= v < snap.n()
    &&& dist[v] is Some
    &&& follows(snap, anywhere(), v, js)
    &&& walk_nodes(snap, v, js).no_duplicates()
    &&& forall|i: int|
        0 <= i <= js.len() ==> dist[walk_end(snap, v, #[trigger] js.take(i))] == Some(
            dist[v]->0.plus(walk_cost(weights, js.take(i))),
        )
}

/// One more step back comes to a node that the trace has not been at.
proof fn lemma_gone_back<C: Cost>(
    snap: CsrSnapshot,
    weights: Seq<C>,
    dist: Seq<Option<C>>,
    v: int,
    js: Seq<int>,
    u: int,
    k: int,
)
    requires
        snap.wf(),
        C::exact(),
        no_free_cycle(snap, weights, dist),
        gone_back(snap, weights, dist, v, js),
        0 <= u < snap.n(),
        dist[u] is Some,
        in_row(snap, u, k),
        snap.col_idx@[k] == v,
        dist[v] == Some(dist[u]->0.plus(weights[k])),
    ensures
        gone_back(snap, weights, dist, u, seq![k] + js),
{
    let all = seq![k] + js;
    let nodes = walk_nodes(snap, v, js);
    lemma_step_before(snap, weights, u, k, js);
    assert forall|i: int| 0 <= i <= js.len() implies {
        &&& nodes[i] != u
        &&& dist[walk_end(snap, v, #[trigger] js.take(i))] == Some(
            dist[u]->0.plus(walk_cost(weights, seq![k] + js.take(i))),
        )
        &&& walk_end(snap, u, seq![k] + js.take(i)) == walk_end(snap, v, js.take(i))
    } by {
        let part = js.take(i);
        lemma_node_at(snap, v, js, i);
        lemma_step_before(snap, weights, u, k, part);
        C::law_exact(dist[u]->0, weights[k], walk_cost(weights, part));
        if nodes[i] == u {
            assert(follows(snap, anywhere(), u, seq![k] + part));
        }
    }
    lemma_node_at(snap, v, js, 0);
    assert forall|i: int, j: int| 0 <= i < j < nodes.len() + 1 implies (seq![u] + nodes)[i] != (
    seq![u] + nodes)[j] by {
        assert(js.take(j - 1) == js.take(j - 1));
        if i > 0 {
            assert(nodes[i - 1] != nodes[j - 1]);
        }
    }
    assert forall|i: int| 0 <= i <= all.len() implies dist[walk_end(
        snap,
        u,
        #[trigger] all.take(i),
    )] == Some(dist[u]->0.plus(walk_cost(weights, all.take(i)))) by {
        if i == 0 {
            assert(all.take(0) =~= Seq::empty());
            C::law_exact(dist[u]->0, dist[u]->0, dist[u]->0);
        } else {
            assert(all.take(i) =~= seq![k] + js.take(i - 1));
        }
    }
}

proof fn lemma_trace_from<C: Cost>(
    snap: CsrSnapshot,
    weights: Seq<C>,
    dist: Seq<Option<C>>,
    s: int,
    v: int,
    js: Seq<int>,
    fuel: nat,
) -> (ks: Seq<int>)
    requires
        snap.wf(),
        weights.len() == snap.edges@.len(),
        C::exact(),
        0 <= s < snap.n(),
        least_costs(snap, weights, anywhere(), s, dist),
        no_free_cycle(snap, weights, dist),
        dist[s] == Some(C::zero()),
        gone_back(snap, weights, dist, v, js),
        js.len() + fuel == snap.n(),
    ensures
        trace(snap, weights, dist, s, v, fuel) == Some(walk_nodes(snap, s, ks)),
        follows(snap, anywhere(), s, ks),
        walk_end(snap, s, ks) == v,
        walk_cost(weights, ks) == dist[v]->0,
    decreases fuel,
{
    if v == s {
        Seq::empty()
    } else {
        let nodes = walk_nodes(snap, v, js);
        lemma_node_at(snap, v, js, 0);
        assert forall|i: int| 0 <= i < nodes.len() implies 0 <= #[trigger] nodes[i] < snap.n() by {
            lemma_node_at(snap, v, js, i);
            lemma_walk_in_range(snap, anywhere(), v, js.take(i));
        }
        lemma_distinct_bound(nodes, snap.n());
        let u = lemma_some_back(snap, weights, dist, s, v);
        let k = choose|k: int|
            #[trigger] in_row(snap, u, k) && snap.col_idx@[k] == v && dist[v] == Some(
                dist[u]->0.plus(weights[k]),
            );
        lemma_gone_back(snap, weights, dist, v, js, u, k);
        let rest = lemma_trace_from(
            snap,
            weights,
            dist,
            s,
            u,
            seq![k] + js,
            (fuel - 1) as nat,
        );
        let ks = rest.push(k);
        assert(ks.drop_last() =~= rest);
        ks
    }
}

/// A walk that goes on with another one.
proof fn lemma_walks_join<C: Cost>(
    snap: CsrSnapshot,
    weights: Seq<C>,
    s: int,
    a: Seq<int>,
    b: Seq<int>,
)
    requires
        C::exact(),
        follows(snap, anywhere(), s, a),
        follows(snap, anywhere(), walk_end(snap, s, a), b),
    ensures
        follows(snap, anywhere(), s, a + b),
        walk_end(snap, s, a + b) == walk_end(snap, walk_end(snap, s, a), b),
        walk_cost(weights, a + b) == walk_cost(weights, a).plus(walk_cost(weights, b)),
    decreases b.len(),
{
    if b.len() == 0 {
        assert(a + b =~= a);
        C::law_exact(walk_cost(weights, a), C::zero(), C::zero());
    } else {
        let rest = b.drop_last();
        assert((a + b).drop_last() =~= a + rest);
        lemma_walks_join(snap, weights, s, a, rest);
        C::law_exact(walk_cost(weights, a), walk_cost(weights, rest), weights[b.last()]);
    }
}

/// Without a free cycle nothing is cheaper than to stay at the start.
proof fn lemma_start_is_free<C: Cost>(
    snap: CsrSnapshot,
    weights: Seq<C>,
    dist: Seq<Option<C>>,
    s: int,
)
    requires
        C::exact(),
        0 <= s < snap.n(),
        least_costs(snap, weights, anywhere(), s, dist),
        no_free_cycle(snap, weights, dist),
    ensures
        dist[s] == Some(C::zero()),
{
    let none = Seq::<int>::empty();
    assert(follows(snap, anywhere(), s, none));
    C::law_bounded(C::zero(), C::zero());
    let c = dist[s]->0;
    let ks = choose|ks: Seq<int>|
        #[trigger] follows(snap, anywhere(), s, ks) && walk_end(snap, s, ks) == s && walk_cost(
            weights,
            ks,
        ) == c;
    if ks.len() > 0 {
        lemma_walks_join(snap, weights, s, ks, ks);
        C::law_plus(c, C::zero(), c);
        C::law_exact(c, c.plus(c), c);
        C::law_exact(c.plus(c), c, c);
        C::law_bounded(c.plus(c), c);
        assert(follows(snap, anywhere(), s, ks + ks));
        assert(c.le(c.plus(c)));
    }
}

/// Where costs are exact and no cycle that can be reached is free, the trace always comes
/// back to the start, and what it finds is a walk of the least cost.
pub proof fn lemma_trace_succeeds<C: Cost>(
    snap: CsrSnapshot,
    weights: Seq<C>,
    dist: Seq<Option<C>>,
    s: int,
    t: int,
)
    requires
        snap.wf(),
        weights.len() == snap.edges@.len(),
        C::exact(),
        0 <= s < snap.n(),
        0 <= t < snap.n(),
        least_costs(snap, weights, anywhere(), s, dist),
        no_free_cycle(snap, weights, dist),
        dist[t] is Some,
    ensures
        exists|ks: Seq<int>|
            #[trigger] follows(snap, anywhere(), s, ks) && walk_end(snap, s, ks) == t && walk_cost(
                weights,
                ks,
            ) == dist[t]->0 && trace(snap, weights, dist, s, t, snap.n()) == Some(
                walk_nodes(snap, s, ks),
            ),
{
    let none = Seq::<int>::empty();
    lemma_start_is_free(snap, weights, dist, s);
    assert(gone_back(snap, weights, dist, t, none)) by {
        assert forall|i: int| 0 <= i <= none.len() implies dist[walk_end(
            snap,
            t,
            #[trigger] none.take(i),
        )] == Some(dist[t]->0.plus(walk_cost(weights, none.take(i)))) by {
            assert(none.take(i) =~= none);
            C::law_exact(dist[t]->0, dist[t]->0, dist[t]->0);
        }
    }
    let ks = lemma_trace_from(snap, weights, dist, s, t, none, snap.n());
}

} // verus!
