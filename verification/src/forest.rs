//! Spanning forests of least or greatest weight, by Kruskal's algorithm.

use vstd::prelude::*;

use crate::components::{connected, UnionFind};
use crate::cost::Cost;
use crate::csr::CsrSnapshot;
use crate::flow::slot_owners;
use crate::schema::EdgeId;
use crate::weighted::in_row;

verus! {

/// Slot `a` is considered before slot `b`: it is lighter (or heavier, for the
/// greatest weight), or as heavy and comes first.
pub open spec fn precedes<C: Cost>(weights: Seq<C>, maximum: bool, a: int, b: int) -> bool {
    let (x, y) = if maximum {
        (weights[b], weights[a])
    } else {
        (weights[a], weights[b])
    };
    !y.le(x) || (x.le(y) && a < b)
}

/// Slots in the order in which they are considered.
pub open spec fn considered<C: Cost>(weights: Seq<C>, maximum: bool, s: Seq<usize>) -> bool {
    forall|i: int, j: int|
        0 <= i < j < s.len() ==> precedes(weights, maximum, s[i] as int, s[j] as int)
}

proof fn lemma_precedes_transitive<C: Cost>(
    weights: Seq<C>,
    maximum: bool,
    a: int,
    b: int,
    c: int,
)
    requires
        precedes(weights, maximum, a, b),
        precedes(weights, maximum, b, c),
    ensures
        precedes(weights, maximum, a, c),
{
    let (x, y, z) = if maximum {
        (weights[c], weights[b], weights[a])
    } else {
        (weights[a], weights[b], weights[c])
    };
    C::law_order(x, y, z);
    C::law_order(y, z, x);
    C::law_order(z, x, y);
    C::law_order(z, y, x);
    C::law_order(y, x, z);
    C::law_order(x, z, y);
}

proof fn lemma_precedes_total<C: Cost>(weights: Seq<C>, maximum: bool, a: int, b: int)
    requires
        a != b,
    ensures
        precedes(weights, maximum, a, b) != precedes(weights, maximum, b, a),
{
    C::law_order(weights[a], weights[b], weights[b]);
    C::law_order(weights[b], weights[a], weights[a]);
}

fn goes_first<C: Cost>(weights: &Vec<C>, maximum: bool, a: usize, b: usize) -> (r: bool)
    requires
        a < weights@.len(),
        b < weights@.len(),
    ensures
        r == precedes(weights@, maximum, a as int, b as int),
{
    let (x, y) = if maximum {
        (weights[b], weights[a])
    } else {
        (weights[a], weights[b])
    };
    proof {
        C::law_order(x, y, y);
    }
    if x.less(&y) {
        true
    } else if y.less(&x) {
        false
    } else {
        a < b
    }
}

/// Merges two ordered lists of different slots.
fn merge<C: Cost>(
    weights: &Vec<C>,
    maximum: bool,
    a: &Vec<usize>,
    b: &Vec<usize>,
) -> (out: Vec<usize>)
    requires
        forall|i: int| 0 <= i < a@.len() ==> (#[trigger] a@[i]) < weights@.len(),
        forall|i: int| 0 <= i < b@.len() ==> (#[trigger] b@[i]) < weights@.len(),
        considered(weights@, maximum, a@),
        considered(weights@, maximum, b@),
        forall|i: int, j: int|
            0 <= i < a@.len() && 0 <= j < b@.len() ==> a@[i] != b@[j],
    ensures
        considered(weights@, maximum, out@),
        out@.len() == a@.len() + b@.len(),
        forall|x: usize| #[trigger] out@.contains(x) <==> a@.contains(x) || b@.contains(x),
{
    let mut out: Vec<usize> = Vec::new();
    let mut i: usize = 0;
    let mut j: usize = 0;
    while i < a.len() || j < b.len()
        invariant
            forall|k: int| 0 <= k < a@.len() ==> (#[trigger] a@[k]) < weights@.len(),
            forall|k: int| 0 <= k < b@.len() ==> (#[trigger] b@[k]) < weights@.len(),
            considered(weights@, maximum, a@),
            considered(weights@, maximum, b@),
            forall|p: int, q: int|
                0 <= p < a@.len() && 0 <= q < b@.len() ==> a@[p] != b@[q],
            i <= a@.len(),
            j <= b@.len(),
            out@.len() == i + j,
            considered(weights@, maximum, out@),
            forall|x: usize|
                #[trigger] out@.contains(x) <==> a@.take(i as int).contains(x) || b@.take(
                    j as int,
                ).contains(x),
            forall|k: int, p: int|
                #![trigger out@[k], a@[p]]
                0 <= k < out@.len() && i <= p < a@.len() ==> precedes(
                    weights@,
                    maximum,
                    out@[k] as int,
                    a@[p] as int,
                ),
            forall|k: int, q: int|
                #![trigger out@[k], b@[q]]
                0 <= k < out@.len() && j <= q < b@.len() ==> precedes(
                    weights@,
                    maximum,
                    out@[k] as int,
                    b@[q] as int,
                ),
        decreases a@.len() - i + b@.len() - j,
    {
        let left: bool = if i == a.len() {
            false
        } else if j == b.len() {
            true
        } else {
            goes_first(weights, maximum, a[i], b[j])
        };
        let ghost before = out@;
        let ghost (i0, j0) = (i as int, j as int);
        let x: usize = if left {
            a[i]
        } else {
            b[j]
        };
        out.push(x);
        if left {
            i = i + 1;
        } else {
            j = j + 1;
        }
        proof {
            assert forall|k: int, p: int|
                #![trigger out@[k], a@[p]]
                0 <= k < out@.len() && i <= p < a@.len() implies precedes(
                weights@,
                maximum,
                out@[k] as int,
                a@[p] as int,
            ) by {
                if k == before.len() {
                    if left {
                        assert(precedes(weights@, maximum, a@[i0] as int, a@[p] as int));
                    } else {
                        if i0 < a@.len() {
                            lemma_precedes_total(
                                weights@,
                                maximum,
                                a@[i0] as int,
                                b@[j0] as int,
                            );
                            if p != i0 {
                                lemma_precedes_transitive(
                                    weights@,
                                    maximum,
                                    b@[j0] as int,
                                    a@[i0] as int,
                                    a@[p] as int,
                                );
                            }
                        }
                    }
                } else {
                    assert(before[k] == out@[k]);
                }
            }
            assert forall|k: int, q: int|
                #![trigger out@[k], b@[q]]
                0 <= k < out@.len() && j <= q < b@.len() implies precedes(
                weights@,
                maximum,
                out@[k] as int,
                b@[q] as int,
            ) by {
                if k == before.len() {
                    if !left {
                        assert(precedes(weights@, maximum, b@[j0] as int, b@[q] as int));
                    } else {
                        if q != j0 {
                            lemma_precedes_transitive(
                                weights@,
                                maximum,
                                a@[i0] as int,
                                b@[j0] as int,
                                b@[q] as int,
                            );
                        }
                    }
                } else {
                    assert(before[k] == out@[k]);
                }
            }
            assert(considered(weights@, maximum, out@)) by {
                assert forall|p: int, q: int| 0 <= p < q < out@.len() implies precedes(
                    weights@,
                    maximum,
                    out@[p] as int,
                    out@[q] as int,
                ) by {
                    if q < before.len() {
                        assert(precedes(
                            weights@,
                            maximum,
                            before[p] as int,
                            before[q] as int,
                        ));
                    } else {
                        assert(before[p] == out@[p]);
                        if left {
                            assert(precedes(weights@, maximum, before[p] as int, a@[i0] as int));
                        } else {
                            assert(precedes(weights@, maximum, before[p] as int, b@[j0] as int));
                        }
                    }
                }
            }
            if left {
                assert(a@.take(i as int) =~= a@.take(i0).push(x));
                lemma_push_contains(a@.take(i0), x);
            } else {
                assert(b@.take(j as int) =~= b@.take(j0).push(x));
                lemma_push_contains(b@.take(j0), x);
            }
            lemma_push_contains(before, x);
        }
    }
    assert(a@.take(i as int) =~= a@);
    assert(b@.take(j as int) =~= b@);
    out
}

proof fn lemma_push_contains(s: Seq<usize>, x: usize)
    ensures
        forall|y: usize| #[trigger] s.push(x).contains(y) <==> s.contains(y) || y == x,
{
    assert forall|y: usize| #[trigger] s.push(x).contains(y) <==> s.contains(y) || y == x by {
        if s.contains(y) {
            let i = choose|i: int| 0 <= i < s.len() && s[i] == y;
            assert(s.push(x)[i] == y);
        }
        if y == x {
            assert(s.push(x)[s.len() as int] == y);
        }
    }
}

/// The slots `lo..hi` in the order in which they are considered.
fn order_range<C: Cost>(weights: &Vec<C>, maximum: bool, lo: usize, hi: usize) -> (out: Vec<usize>)
    requires
        lo <= hi <= weights@.len(),
    ensures
        considered(weights@, maximum, out@),
        out@.len() == hi - lo,
        forall|x: usize| #[trigger] out@.contains(x) <==> lo <= x < hi,
    decreases hi - lo,
{
    if hi - lo <= 1 {
        let mut out: Vec<usize> = Vec::new();
        if lo < hi {
            out.push(lo);
            assert(out@[0] == lo);
        }
        return out;
    }
    let mid: usize = lo + (hi - lo) / 2;
    let a: Vec<usize> = order_range(weights, maximum, lo, mid);
    let b: Vec<usize> = order_range(weights, maximum, mid, hi);
    proof {
        assert forall|i: int| 0 <= i < a@.len() implies (#[trigger] a@[i]) < mid by {
            assert(a@.contains(a@[i]));
        }
        assert forall|i: int| 0 <= i < b@.len() implies mid <= (#[trigger] b@[i]) < hi by {
            assert(b@.contains(b@[i]));
        }
    }
    merge(weights, maximum, &a, &b)
}

/// The edges at the first `i` of the considered slots, as links.
pub open spec fn links_to(
    tails: Seq<usize>,
    heads: Seq<u32>,
    order: Seq<usize>,
    i: int,
) -> Seq<(int, int)> {
    Seq::new(i as nat, |k: int| (tails[order[k] as int] as int, heads[order[k] as int] as int))
}

/// The edges that are chosen among the first `i` considered ones: those whose
/// ends the earlier ones do not connect.
pub open spec fn chosen(
    tails: Seq<usize>,
    heads: Seq<u32>,
    ids: Seq<EdgeId>,
    order: Seq<usize>,
    i: int,
) -> Seq<EdgeId>
    decreases i,
{
    if i <= 0 {
        Seq::empty()
    } else {
        let before = chosen(tails, heads, ids, order, i - 1);
        let k = order[i - 1] as int;
        if connected(links_to(tails, heads, order, i - 1), tails[k] as int, heads[k] as int) {
            before
        } else {
            before.push(ids[k])
        }
    }
}

/// `tails` holds the row of every slot.
pub open spec fn owns(snap: CsrSnapshot, tails: Seq<usize>) -> bool {
    &&& tails.len() == snap.edges@.len()
    &&& forall|k: int|
        0 <= k < tails.len() ==> (#[trigger] tails[k]) < snap.n() && in_row(
            snap,
            tails[k] as int,
            k,
        )
}

/// `out` is the forest that considering the edges in the order of their weights chooses.
pub open spec fn forest_of<C: Cost>(
    snap: CsrSnapshot,
    weights: Seq<C>,
    maximum: bool,
    order: Seq<usize>,
    out: Seq<EdgeId>,
) -> bool {
    &&& order.len() == snap.edges@.len()
    &&& considered(weights, maximum, order)
    &&& forall|x: usize| #[trigger] order.contains(x) <==> x < snap.edges@.len()
    &&& exists|tails: Seq<usize>|
        #[trigger] owns(snap, tails) && out == chosen(
            tails,
            snap.col_idx@,
            snap.edge_id@,
            order,
            order.len() as int,
        )
}

/// The spanning forest of least, or greatest, weight, where slot `k` weighs
/// `weights[k]`: the ids of its edges, in the order of their weights.
pub fn spanning_forest<C: Cost>(snap: &CsrSnapshot, weights: &Vec<C>, maximum: bool) -> (out: Vec<
    EdgeId,
>)
    requires
        snap.wf(),
        weights@.len() == snap.edges@.len(),
    ensures
        exists|order: Seq<usize>|
            #[trigger] forest_of(*snap, weights@, maximum, order, out@),
{
    let n: usize = snap.dense_to_id.len();
    let m: usize = snap.col_idx.len();
    let tails: Vec<usize> = slot_owners(snap);
    let order: Vec<usize> = order_range(weights, maximum, 0, m);
    let mut sets: UnionFind = UnionFind::new(n);
    let mut out: Vec<EdgeId> = Vec::new();
    let mut i: usize = 0;
    proof {
        assert(sets.links@ =~= links_to(tails@, snap.col_idx@, order@, 0));
        assert forall|x: int| 0 <= x < order@.len() implies (#[trigger] order@[x]) < m by {
            assert(order@.contains(order@[x]));
        }
    }
    while i < m
        invariant
            snap.wf(),
            n == snap.n(),
            m == snap.edges@.len(),
            owns(*snap, tails@),
            order@.len() == m,
            forall|x: int| 0 <= x < order@.len() ==> (#[trigger] order@[x]) < m,
            sets.wf(),
            sets.parent@.len() == n,
            i <= m,
            sets.links@ == links_to(tails@, snap.col_idx@, order@, i as int),
            out@ == chosen(tails@, snap.col_idx@, snap.edge_id@, order@, i as int),
        decreases m - i,
    {
        let k: usize = order[i];
        assert(tails@[k as int] < n);
        let joined: bool = sets.union(tails[k], snap.col_idx[k] as usize);
        if joined {
            out.push(snap.edge_id[k]);
        }
        proof {
            assert(sets.links@ =~= links_to(tails@, snap.col_idx@, order@, i + 1));
        }
        i = i + 1;
    }
    proof {
        assert(owns(*snap, tails@));
        assert(forest_of(*snap, weights@, maximum, order@, out@));
    }
    out
}

} // verus!
