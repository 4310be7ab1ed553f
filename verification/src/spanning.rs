//! What a spanning forest is: it connects what the graph connects, without a
//! cycle, and no set of edges without a cycle is lighter.

use vstd::prelude::*;

use crate::components::{
    connected, lemma_connected_link, lemma_connected_mark, lemma_connected_more,
    lemma_connected_self, lemma_connected_symmetric, lemma_connected_transitive,
};
use crate::cost::Cost;
use crate::csr::CsrSnapshot;
use crate::forest::{chosen, forest_of, links_to, owns, precedes};
use crate::schema::EdgeId;
use crate::weighted::in_row;

verus! {

/// No link joins two nodes that the links before it connect: there is no cycle.
pub open spec fn acyclic(links: Seq<(int, int)>) -> bool {
    forall|j: int|
        0 <= j < links.len() ==> !connected(links.take(j), (#[trigger] links[j]).0, links[j].1)
}

/// The positions of the links that no earlier ones make superfluous, among the first `i`.
pub open spec fn needed(links: Seq<(int, int)>, i: int) -> Seq<int>
    decreases i,
{
    if i <= 0 {
        Seq::empty()
    } else if connected(links.take(i - 1), links[i - 1].0, links[i - 1].1) {
        needed(links, i - 1)
    } else {
        needed(links, i - 1).push(i - 1)
    }
}

/// The links at these positions.
pub open spec fn picked(links: Seq<(int, int)>, picks: Seq<int>) -> Seq<(int, int)> {
    Seq::new(picks.len(), |k: int| links[picks[k]])
}

/// Positions in strictly ascending order below `m`.
pub open spec fn positions(picks: Seq<int>, m: int) -> bool {
    &&& forall|a: int, b: int| 0 <= a < b < picks.len() ==> picks[a] < picks[b]
    &&& forall|a: int| 0 <= a < picks.len() ==> 0 <= #[trigger] picks[a] < m
}

proof fn lemma_needed(links: Seq<(int, int)>, i: int)
    requires
        0 <= i <= links.len(),
    ensures
        positions(needed(links, i), i),
        forall|u: int, v: int| #[trigger]
            connected(picked(links, needed(links, i)), u, v) <==> connected(links.take(i), u, v),
        acyclic(picked(links, needed(links, i))),
    decreases i,
{
    let now = picked(links, needed(links, i));
    if i == 0 {
        assert(now =~= links.take(0));
    } else {
        lemma_needed(links, i - 1);
        let before = picked(links, needed(links, i - 1));
        let (a, b) = links[i - 1];
        let (old, all) = (links.take(i - 1), links.take(i));
        assert(all =~= old.push((a, b)));
        if connected(old, a, b) {
            assert forall|u: int, v: int| #[trigger]
                connected(now, u, v) <==> connected(all, u, v) by {
                assert(connected(before, u, v) <==> connected(old, u, v));
                lemma_redundant(old, a, b, u, v);
            }
        } else {
            assert(now =~= before.push((a, b)));
            assert forall|u: int, v: int| #[trigger]
                connected(now, u, v) <==> connected(all, u, v) by {
                if connected(now, u, v) {
                    lemma_same_reach(before, old, (a, b), u, v);
                }
                if connected(all, u, v) {
                    lemma_same_reach(old, before, (a, b), u, v);
                }
            }
            assert forall|j: int| 0 <= j < now.len() implies !connected(
                now.take(j),
                (#[trigger] now[j]).0,
                now[j].1,
            ) by {
                if j < before.len() {
                    assert(now.take(j) =~= before.take(j));
                    assert(now[j] == before[j]);
                } else {
                    assert(now.take(j) =~= before);
                }
            }
        }
    }
}

/// A link between connected nodes connects nothing more.
proof fn lemma_redundant(links: Seq<(int, int)>, a: int, b: int, u: int, v: int)
    requires
        connected(links, a, b),
    ensures
        connected(links.push((a, b)), u, v) <==> connected(links, u, v),
{
    let more = links.push((a, b));
    if connected(links, u, v) {
        lemma_pushed(links, (a, b));
        lemma_connected_more(links, more, u, v);
    }
    if connected(more, u, v) {
        let mark = |x: int|
            if connected(links, u, x) {
                1int
            } else {
                0int
            };
        assert forall|i: int| 0 <= i < more.len() implies mark((#[trigger] more[i]).0) == mark(
            more[i].1,
        ) by {
            let (x, y) = more[i];
            if i < links.len() {
                assert(links[i] == (x, y));
                assert(links.contains((x, y)));
                lemma_connected_link(links, x, y);
            }
            lemma_connected_symmetric(links, x, y);
            if connected(links, u, x) {
                lemma_connected_transitive(links, u, x, y);
            }
            if connected(links, u, y) {
                lemma_connected_transitive(links, u, y, x);
            }
        }
        lemma_connected_self(links, u);
        lemma_connected_mark(more, mark, u, v);
    }
}

proof fn lemma_pushed(links: Seq<(int, int)>, l: (int, int))
    ensures
        forall|x: (int, int)| #[trigger] links.contains(x) ==> links.push(l).contains(x),
        links.push(l).contains(l),
{
    assert(links.push(l)[links.len() as int] == l);
    assert forall|x: (int, int)| #[trigger] links.contains(x) implies links.push(l).contains(x) by {
        let i = links.index_of(x);
        assert(links.push(l)[i] == x);
    }
}

/// Links that connect no more still connect no more when both get the same link.
proof fn lemma_same_reach(
    less: Seq<(int, int)>,
    more: Seq<(int, int)>,
    l: (int, int),
    u: int,
    v: int,
)
    requires
        forall|x: int, y: int| #[trigger] connected(less, x, y) ==> connected(more, x, y),
        connected(less.push(l), u, v),
    ensures
        connected(more.push(l), u, v),
{
    let (s, t) = (less.push(l), more.push(l));
    lemma_pushed(more, l);
    let mark = |x: int|
        if connected(t, u, x) {
            1int
        } else {
            0int
        };
    assert forall|i: int| 0 <= i < s.len() implies mark((#[trigger] s[i]).0) == mark(s[i].1) by {
        let (x, y) = s[i];
        if i < less.len() {
            assert(less[i] == (x, y));
            assert(less.contains((x, y)));
            lemma_connected_link(less, x, y);
            lemma_connected_more(more, t, x, y);
        } else {
            lemma_connected_link(t, x, y);
        }
        lemma_connected_symmetric(t, x, y);
        if connected(t, u, x) {
            lemma_connected_transitive(t, u, x, y);
        }
        if connected(t, u, y) {
            lemma_connected_transitive(t, u, y, x);
        }
    }
    lemma_connected_self(t, u);
    lemma_connected_mark(s, mark, u, v);
}

/// The least node from `k` on that is connected to `v`.
spec fn least(links: Seq<(int, int)>, v: int, k: int) -> int
    decreases v - k,
{
    if k >= v || connected(links, k, v) {
        if k >= v {
            v
        } else {
            k
        }
    } else {
        least(links, v, k + 1)
    }
}

proof fn lemma_least(links: Seq<(int, int)>, v: int, k: int)
    requires
        0 <= k <= v,
    ensures
        k <= least(links, v, k) <= v,
        connected(links, least(links, v, k), v),
        forall|u: int| k <= u < least(links, v, k) ==> !#[trigger] connected(links, u, v),
    decreases v - k,
{
    lemma_connected_self(links, v);
    if k < v && !connected(links, k, v) {
        lemma_least(links, v, k + 1);
    }
}

/// Whether no smaller node is connected to `v`.
spec fn leads(links: Seq<(int, int)>, v: int) -> bool {
    forall|u: int| 0 <= u < v ==> !#[trigger] connected(links, u, v)
}

/// How many sets of connected nodes there are among the first `n`.
spec fn classes(links: Seq<(int, int)>, n: int) -> nat
    decreases n,
{
    if n <= 0 {
        0
    } else {
        classes(links, n - 1) + if leads(links, n - 1) {
            1nat
        } else {
            0nat
        }
    }
}

proof fn lemma_classes_less(links: Seq<(int, int)>, more: Seq<(int, int)>, n: int)
    requires
        forall|x: int, y: int| #[trigger] connected(links, x, y) ==> connected(more, x, y),
    ensures
        classes(more, n) <= classes(links, n),
    decreases n,
{
    if n > 0 {
        lemma_classes_less(links, more, n - 1);
        if leads(more, n - 1) {
            assert(leads(links, n - 1));
        }
    }
}

proof fn lemma_classes_without(
    links: Seq<(int, int)>,
    more: Seq<(int, int)>,
    top: int,
    n: int,
)
    requires
        forall|v: int| 0 <= v ==> (#[trigger] leads(more, v) <==> leads(links, v) && v != top),
        leads(links, top),
        0 <= top,
    ensures
        classes(more, n) + if top < n {
            1nat
        } else {
            0nat
        } == classes(links, n),
    decreases n,
{
    if n > 0 {
        lemma_classes_without(links, more, top, n - 1);
        assert(leads(more, n - 1) <==> leads(links, n - 1) && n - 1 != top);
    }
}

/// A link between two sets of connected nodes makes one of them.
proof fn lemma_classes_join(links: Seq<(int, int)>, a: int, b: int, n: int)
    requires
        0 <= a < n,
        0 <= b < n,
        !connected(links, a, b),
    ensures
        classes(links.push((a, b)), n) + 1 == classes(links, n),
{
    let more = links.push((a, b));
    let (ra, rb) = (least(links, a, 0), least(links, b, 0));
    lemma_least(links, a, 0);
    lemma_least(links, b, 0);
    lemma_pushed(links, (a, b));
    if ra == rb {
        lemma_connected_symmetric(links, ra, a);
        lemma_connected_transitive(links, a, ra, b);
    }
    let (lo, hi) = if ra < rb {
        (ra, rb)
    } else {
        (rb, ra)
    };
    assert(connected(more, lo, hi)) by {
        lemma_connected_more(links, more, ra, a);
        lemma_connected_more(links, more, rb, b);
        lemma_connected_link(more, a, b);
        lemma_connected_symmetric(more, rb, b);
        lemma_connected_transitive(more, ra, a, b);
        lemma_connected_transitive(more, ra, b, rb);
        lemma_connected_symmetric(more, ra, rb);
    }
    assert(leads(links, hi)) by {
        let end = if ra < rb {
            b
        } else {
            a
        };
        assert forall|u: int| 0 <= u < hi implies !#[trigger] connected(links, u, hi) by {
            if connected(links, u, hi) {
                lemma_connected_transitive(links, u, hi, end);
            }
        }
    }
    assert forall|v: int| 0 <= v implies (#[trigger] leads(more, v) <==> leads(links, v) && v
        != hi) by {
        if leads(more, v) {
            if v == hi {
                assert(connected(more, lo, v));
            }
            assert forall|u: int| 0 <= u < v implies !#[trigger] connected(links, u, v) by {
                if connected(links, u, v) {
                    lemma_connected_more(links, more, u, v);
                }
            }
        }
        if leads(links, v) && v != hi {
            assert forall|u: int| 0 <= u < v implies !#[trigger] connected(more, u, v) by {
                if connected(more, u, v) {
                    lemma_marks(links, a, b, u, v);
                    lemma_least(links, u, 0);
                    lemma_least(links, v, 0);
                }
            }
        }
    }
    lemma_classes_without(links, more, hi, n);
}

/// Two nodes that one more link connects were connected, or reach its two ends.
proof fn lemma_marks(links: Seq<(int, int)>, a: int, b: int, u: int, v: int)
    requires
        0 <= a,
        0 <= b,
        0 <= u,
        0 <= v,
        connected(links.push((a, b)), u, v),
    ensures
        least(links, u, 0) == least(links, v, 0) || (least(links, u, 0) == least(links, a, 0)
            && least(links, v, 0) == least(links, b, 0)) || (least(links, u, 0) == least(
            links,
            b,
            0,
        ) && least(links, v, 0) == least(links, a, 0)),
{
    let more = links.push((a, b));
    let by_a = connected(links, u, a);
    let by_b = connected(links, u, b);
    let mark = |x: int|
        if connected(links, u, x) || (by_a && connected(links, b, x)) || (by_b && connected(
            links,
            a,
            x,
        )) {
            1int
        } else {
            0int
        };
    assert forall|i: int| 0 <= i < more.len() implies mark((#[trigger] more[i]).0) == mark(
        more[i].1,
    ) by {
        let (x, y) = more[i];
        if i < links.len() {
            assert(links[i] == (x, y));
            assert(links.contains((x, y)));
            lemma_connected_link(links, x, y);
            lemma_connected_symmetric(links, x, y);
            lemma_step(links, u, x, y);
            lemma_step(links, a, x, y);
            lemma_step(links, b, x, y);
        } else {
            lemma_connected_self(links, a);
            lemma_connected_self(links, b);
            if by_a && connected(links, b, a) || by_b && connected(links, a, b) {
                if connected(links, a, b) {
                    lemma_connected_symmetric(links, a, b);
                } else {
                    lemma_connected_symmetric(links, b, a);
                }
                lemma_step(links, u, a, b);
            }
        }
    }
    lemma_connected_self(links, u);
    lemma_connected_mark(more, mark, u, v);
    if connected(links, u, v) {
        lemma_least_same(links, u, v);
    } else if by_a && connected(links, b, v) {
        lemma_least_same(links, u, a);
        lemma_least_same(links, b, v);
    } else {
        lemma_least_same(links, u, b);
        lemma_least_same(links, a, v);
    }
}

proof fn lemma_step(links: Seq<(int, int)>, s: int, x: int, y: int)
    requires
        connected(links, x, y),
        connected(links, y, x),
    ensures
        connected(links, s, x) == connected(links, s, y),
{
    if connected(links, s, x) {
        lemma_connected_transitive(links, s, x, y);
    }
    if connected(links, s, y) {
        lemma_connected_transitive(links, s, y, x);
    }
}

proof fn lemma_least_same(links: Seq<(int, int)>, u: int, v: int)
    requires
        0 <= u,
        0 <= v,
        connected(links, u, v),
    ensures
        least(links, u, 0) == least(links, v, 0),
{
    lemma_least(links, u, 0);
    lemma_least(links, v, 0);
    let (ru, rv) = (least(links, u, 0), least(links, v, 0));
    lemma_connected_transitive(links, ru, u, v);
    lemma_connected_symmetric(links, u, v);
    lemma_connected_transitive(links, rv, v, u);
    assert(!(ru < rv));
    assert(!(rv < ru));
}

/// Links without a cycle are as many as the sets of nodes that they join.
proof fn lemma_acyclic_count(links: Seq<(int, int)>, n: int)
    requires
        0 <= n,
        acyclic(links),
        forall|i: int|
            0 <= i < links.len() ==> 0 <= (#[trigger] links[i]).0 < n && 0 <= links[i].1 < n,
    ensures
        links.len() + classes(links, n) == n,
    decreases links.len(),
{
    if links.len() == 0 {
        lemma_classes_empty(links, n);
    } else {
        let before = links.drop_last();
        let last = links.last();
        assert forall|j: int| 0 <= j < before.len() implies !connected(
            before.take(j),
            (#[trigger] before[j]).0,
            before[j].1,
        ) by {
            assert(before.take(j) =~= links.take(j));
            assert(before[j] == links[j]);
        }
        lemma_acyclic_count(before, n);
        assert(links.take(links.len() - 1) =~= before);
        assert(links =~= before.push(last));
        assert(!connected(before, links[links.len() - 1].0, links[links.len() - 1].1));
        lemma_classes_join(before, last.0, last.1, n);
    }
}

proof fn lemma_classes_empty(links: Seq<(int, int)>, n: int)
    requires
        0 <= n,
        links.len() == 0,
    ensures
        classes(links, n) == n,
    decreases n,
{
    if n > 0 {
        lemma_classes_empty(links, n - 1);
        assert forall|u: int| 0 <= u < n - 1 implies !#[trigger] connected(links, u, n - 1) by {
            if connected(links, u, n - 1) {
                lemma_connected_mark(links, |x: int| x, u, n - 1);
            }
        }
    }
}

/// Links without a cycle are no more than those without a cycle that connect as much.
proof fn lemma_no_more(less: Seq<(int, int)>, more: Seq<(int, int)>, n: int)
    requires
        0 <= n,
        acyclic(less),
        acyclic(more),
        forall|i: int|
            0 <= i < less.len() ==> 0 <= (#[trigger] less[i]).0 < n && 0 <= less[i].1 < n,
        forall|i: int|
            0 <= i < more.len() ==> 0 <= (#[trigger] more[i]).0 < n && 0 <= more[i].1 < n,
        forall|u: int, v: int| #[trigger] connected(less, u, v) ==> connected(more, u, v),
    ensures
        less.len() <= more.len(),
{
    lemma_acyclic_count(less, n);
    lemma_acyclic_count(more, n);
    lemma_classes_less(less, more, n);
}

/// Links without a cycle do not come earlier than the needed ones.
proof fn lemma_dominated(links: Seq<(int, int)>, picks: Seq<int>, n: int)
    requires
        0 <= n,
        forall|i: int|
            0 <= i < links.len() ==> 0 <= (#[trigger] links[i]).0 < n && 0 <= links[i].1 < n,
        positions(picks, links.len() as int),
        acyclic(picked(links, picks)),
    ensures
        picks.len() <= needed(links, links.len() as int).len(),
        forall|k: int|
            0 <= k < picks.len() ==> needed(links, links.len() as int)[k] <= #[trigger] picks[k],
{
    let m = links.len() as int;
    let all = needed(links, m);
    assert forall|k: int| 0 <= k < picks.len() implies k < all.len() && all[k]
        <= #[trigger] picks[k] by {
        let i = picks[k] + 1;
        let part = picked(links, picks.take(k + 1));
        let best = picked(links, needed(links, i));
        lemma_needed(links, i);
        let whole = picked(links, picks);
        assert(part =~= whole.take(k + 1));
        assert forall|j: int| 0 <= j < part.len() implies !connected(
            part.take(j),
            (#[trigger] part[j]).0,
            part[j].1,
        ) by {
            assert(part.take(j) =~= whole.take(j));
            assert(part[j] == whole[j]);
        }
        assert forall|u: int, v: int| #[trigger] connected(part, u, v) implies connected(
            best,
            u,
            v,
        ) by {
            let first = links.take(i);
            assert forall|l: (int, int)| #[trigger] part.contains(l) implies first.contains(l) by {
                let j = part.index_of(l);
                assert(picks.take(k + 1)[j] == picks[j]);
                assert(picks[j] <= picks[k]);
                assert(first[picks[j]] == l);
            }
            lemma_connected_more(part, first, u, v);
        }
        lemma_no_more(part, best, n);
        lemma_needed_grows(links, i, m);
        lemma_needed(links, m);
        assert(all.take(needed(links, i).len() as int)[k] == needed(links, i)[k]);
    }
    if picks.len() > 0 {
        assert(all[picks.len() - 1] <= picks[picks.len() - 1]);
    }
}

proof fn lemma_needed_grows(links: Seq<(int, int)>, i: int, m: int)
    requires
        0 <= i <= m,
    ensures
        needed(links, i).len() <= needed(links, m).len(),
        needed(links, m).take(needed(links, i).len() as int) == needed(links, i),
    decreases m,
{
    if i == m {
        assert(needed(links, m).take(needed(links, i).len() as int) =~= needed(links, i));
    } else {
        lemma_needed_grows(links, i, m - 1);
        let k = needed(links, i).len() as int;
        assert(needed(links, m).take(k) =~= needed(links, m - 1).take(k));
    }
}

proof fn lemma_chosen(
    tails: Seq<usize>,
    heads: Seq<u32>,
    ids: Seq<EdgeId>,
    order: Seq<usize>,
    i: int,
)
    requires
        0 <= i <= order.len(),
    ensures
        ({
            let at = needed(links_to(tails, heads, order, order.len() as int), i);
            let out = chosen(tails, heads, ids, order, i);
            at.len() == out.len() && forall|k: int|
                0 <= k < out.len() ==> out[k] == ids[order[#[trigger] at[k]] as int]
        }),
    decreases i,
{
    if i > 0 {
        lemma_chosen(tails, heads, ids, order, i - 1);
        let links = links_to(tails, heads, order, order.len() as int);
        assert(links.take(i - 1) =~= links_to(tails, heads, order, i - 1));
    }
}

/// `at` are the positions in the order of consideration of the edges of a forest.
pub open spec fn forest_positions(
    snap: CsrSnapshot,
    order: Seq<usize>,
    out: Seq<EdgeId>,
    at: Seq<int>,
) -> bool {
    &&& positions(at, order.len() as int)
    &&& at.len() == out.len()
    &&& forall|k: int|
        0 <= k < out.len() ==> out[k] == snap.edge_id@[order[#[trigger] at[k]] as int]
}

/// The edges that a spanning forest holds are those whose ends the lighter edges
/// (the heavier ones, for a maximum) do not connect. So they have no cycle, and they
/// connect what the edges of the graph connect.
pub proof fn lemma_forest_spans<C: Cost>(
    snap: CsrSnapshot,
    weights: Seq<C>,
    maximum: bool,
    order: Seq<usize>,
    out: Seq<EdgeId>,
    tails: Seq<usize>,
)
    requires
        snap.wf(),
        weights.len() == snap.edges@.len(),
        forest_of(snap, weights, maximum, order, out),
        owns(snap, tails),
    ensures
        ({
            let links = links_to(tails, snap.col_idx@, order, order.len() as int);
            let at = needed(links, order.len() as int);
            &&& forest_positions(snap, order, out, at)
            &&& acyclic(picked(links, at))
            &&& forall|u: int, v: int| #[trigger]
                connected(picked(links, at), u, v) <==> connected(links, u, v)
        }),
{
    let m = order.len() as int;
    let links = links_to(tails, snap.col_idx@, order, m);
    let other = choose|t: Seq<usize>|
        #[trigger] owns(snap, t) && out == chosen(t, snap.col_idx@, snap.edge_id@, order, m);
    lemma_owners_unique(snap, tails, other);
    lemma_chosen(tails, snap.col_idx@, snap.edge_id@, order, m);
    lemma_needed(links, m);
    assert(links.take(m) =~= links);
}

/// No set of edges without a cycle is lighter than a minimum spanning forest (heavier
/// than a maximum one): it has no more edges, and edge by edge, both sorted by
/// weight, the forest's come no later.
pub proof fn lemma_forest_is_best<C: Cost>(
    snap: CsrSnapshot,
    weights: Seq<C>,
    maximum: bool,
    order: Seq<usize>,
    out: Seq<EdgeId>,
    tails: Seq<usize>,
    picks: Seq<int>,
)
    requires
        snap.wf(),
        weights.len() == snap.edges@.len(),
        forest_of(snap, weights, maximum, order, out),
        owns(snap, tails),
        positions(picks, order.len() as int),
        acyclic(picked(links_to(tails, snap.col_idx@, order, order.len() as int), picks)),
    ensures
        picks.len() <= out.len(),
        exists|at: Seq<int>|
            {
                &&& #[trigger] forest_positions(snap, order, out, at)
                &&& forall|k: int|
                    0 <= k < picks.len() ==> at[k] == #[trigger] picks[k] || precedes(
                        weights,
                        maximum,
                        order[at[k]] as int,
                        order[picks[k]] as int,
                    )
            },
{
    let m = order.len() as int;
    let links = links_to(tails, snap.col_idx@, order, m);
    lemma_forest_spans(snap, weights, maximum, order, out, tails);
    let at = needed(links, m);
    assert forall|i: int| 0 <= i < links.len() implies 0 <= (#[trigger] links[i]).0 < snap.n()
        && 0 <= links[i].1 < snap.n() by {
        assert(order.contains(order[i]));
        let k = order[i] as int;
        assert(tails[k] < snap.n());
        assert(snap.col_idx@[k] < snap.n());
    }
    lemma_dominated(links, picks, snap.n() as int);
    assert forall|k: int| 0 <= k < picks.len() implies at[k] == #[trigger] picks[k] || precedes(
        weights,
        maximum,
        order[at[k]] as int,
        order[picks[k]] as int,
    ) by {
        assert(0 <= at[k] <= picks[k]);
    }
    assert(forest_positions(snap, order, out, at));
}

proof fn lemma_owners_unique(snap: CsrSnapshot, a: Seq<usize>, b: Seq<usize>)
    requires
        snap.wf(),
        owns(snap, a),
        owns(snap, b),
    ensures
        a == b,
{
    assert forall|k: int| 0 <= k < a.len() implies a[k] == b[k] by {
        let (x, y) = (a[k] as int, b[k] as int);
        assert(x < snap.n() && in_row(snap, x, k));
        assert(y < snap.n() && in_row(snap, y, k));
        if x < y {
            lemma_rows_ascend(snap, x + 1, y);
        } else if y < x {
            lemma_rows_ascend(snap, y + 1, x);
        }
    }
    assert(a =~= b);
}

proof fn lemma_rows_ascend(snap: CsrSnapshot, u: int, v: int)
    requires
        snap.wf(),
        0 <= u <= v <= snap.n(),
    ensures
        snap.row_ptr@[u] <= snap.row_ptr@[v],
    decreases v - u,
{
    if u < v {
        lemma_rows_ascend(snap, u, v - 1);
        assert(snap.row_ptr@[v - 1] <= snap.row_ptr@[v - 1 + 1]);
    }
}

} // verus!
