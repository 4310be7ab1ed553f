//! Unweighted paths: shortest, all shortest, all simple and longest simple.

use vstd::prelude::*;

use crate::csr::{edges_ascending, entering, lemma_index_unique, CsrSnapshot, Edge};
use crate::entries::{entry_row, incoming_entries, lemma_entry_at, lemma_entry_of};
use crate::schema::{EdgeId, NodeId};
use crate::sets::{ids_in, insert_id, new_ids};
use crate::traversal::{
    arc, at_level, dense_of, hop_distances, lemma_level_pred, lemma_level_unique, lemma_within_mono,
    lemma_within_step, levels_to, reachable, within, UNREACHED,
};

verus! {

/// A sequence of nodes that follows edges.
pub open spec fn is_walk(edges: Seq<Edge>, p: Seq<int>) -> bool {
    &&& p.len() > 0
    &&& forall|i: int| 0 <= i < p.len() - 1 ==> arc(edges, #[trigger] p[i], p[i + 1])
}

/// A walk from `s` to `t`.
pub open spec fn walk_between(edges: Seq<Edge>, s: int, t: int, p: Seq<int>) -> bool {
    is_walk(edges, p) && p[0] == s && p.last() == t
}

/// A walk from `s` to `t` that no other such walk is shorter than.
pub open spec fn shortest_walk(edges: Seq<Edge>, s: int, t: int, p: Seq<int>) -> bool {
    &&& walk_between(edges, s, t, p)
    &&& forall|q: Seq<int>| walk_between(edges, s, t, q) ==> p.len() <= q.len()
}

/// The node ids of dense indices.
pub open spec fn ids_of(ids: Seq<NodeId>, p: Seq<int>) -> Seq<NodeId> {
    p.map_values(|d: int| ids[d])
}

/// Nodes as numbers.
pub open spec fn as_nodes(p: Seq<usize>) -> Seq<int> {
    p.map_values(|v: usize| v as int)
}

/// A walk of `k` edges stays within `k` steps.
pub proof fn lemma_walk_within(edges: Seq<Edge>, p: Seq<int>)
    requires
        is_walk(edges, p),
    ensures
        within(edges, set![p[0]], (p.len() - 1) as nat).contains(p.last()),
    decreases p.len(),
{
    if p.len() > 1 {
        let q = p.drop_last();
        assert(is_walk(edges, q)) by {
            assert forall|i: int| 0 <= i < q.len() - 1 implies arc(edges, #[trigger] q[i], q[i
                + 1]) by {
                assert(arc(edges, p[i], p[i + 1]));
            }
        }
        lemma_walk_within(edges, q);
        assert(arc(edges, p[p.len() - 2], p[p.len() - 1]));
        assert(q.last() == p[p.len() - 2]);
        lemma_within_step(edges, set![p[0]], q.last(), p.last(), (q.len() - 1) as nat);
    }
}

/// A node `l` steps away is the end of a walk of `l` edges.
pub proof fn lemma_level_walk(edges: Seq<Edge>, s: int, v: int, l: nat) -> (p: Seq<int>)
    requires
        at_level(edges, set![s], v, l),
    ensures
        walk_between(edges, s, v, p),
        p.len() == l + 1,
    decreases l,
{
    if l == 0 {
        seq![v]
    } else {
        let u = lemma_level_pred(edges, set![s], v, l);
        let q = lemma_level_walk(edges, s, u, (l - 1) as nat);
        let p = q.push(v);
        assert(is_walk(edges, p)) by {
            assert forall|i: int| 0 <= i < p.len() - 1 implies arc(edges, #[trigger] p[i], p[i
                + 1]) by {
                if i < q.len() - 1 {
                    assert(arc(edges, q[i], q[i + 1]));
                }
            }
        }
        p
    }
}

/// A walk whose length matches the level of its end is a shortest one.
proof fn lemma_level_is_shortest(edges: Seq<Edge>, s: int, t: int, l: nat, p: Seq<int>)
    requires
        at_level(edges, set![s], t, l),
        walk_between(edges, s, t, p),
        p.len() == l + 1,
    ensures
        shortest_walk(edges, s, t, p),
{
    assert forall|q: Seq<int>| walk_between(edges, s, t, q) implies p.len() <= q.len() by {
        lemma_walk_within(edges, q);
        if q.len() < p.len() {
            lemma_within_mono(edges, set![s], (q.len() - 1) as nat, (l - 1) as nat);
        }
    }
}

/// On a shortest walk the node at position `i` is `i` steps away.
pub proof fn lemma_shortest_levels(edges: Seq<Edge>, s: int, t: int, p: Seq<int>, i: int)
    requires
        shortest_walk(edges, s, t, p),
        0 <= i < p.len(),
    ensures
        at_level(edges, set![s], p[i], i as nat),
{
    let head = p.take(i + 1);
    assert(is_walk(edges, head)) by {
        assert forall|j: int| 0 <= j < head.len() - 1 implies arc(edges, #[trigger] head[j], head[j
            + 1]) by {
            assert(arc(edges, p[j], p[j + 1]));
        }
    }
    lemma_walk_within(edges, head);
    assert(head.last() == p[i]);
    if i > 0 && within(edges, set![s], (i - 1) as nat).contains(p[i]) {
        let l = lemma_first_level(edges, set![s], p[i], (i - 1) as nat);
        let q = lemma_level_walk(edges, s, p[i], l);
        let r = q + p.skip(i + 1);
        assert(is_walk(edges, r)) by {
            assert forall|j: int| 0 <= j < r.len() - 1 implies arc(edges, #[trigger] r[j], r[j
                + 1]) by {
                if j < q.len() - 1 {
                    assert(arc(edges, q[j], q[j + 1]));
                } else {
                    let k = j - (q.len() - 1) + i;
                    assert(r[j] == p[k]);
                    assert(r[j + 1] == p[k + 1]);
                    assert(arc(edges, p[k], p[k + 1]));
                }
            }
        }
        assert(r.last() == t) by {
            if i + 1 == p.len() {
                assert(r =~= q);
            }
        }
        assert(walk_between(edges, s, t, r));
    }
}

/// A node within `k` steps has a level of at most `k`.
pub proof fn lemma_first_level(edges: Seq<Edge>, seeds: Set<int>, v: int, k: nat) -> (l: nat)
    requires
        within(edges, seeds, k).contains(v),
    ensures
        l <= k,
        at_level(edges, seeds, v, l),
    decreases k,
{
    if k == 0 || !within(edges, seeds, (k - 1) as nat).contains(v) {
        k
    } else {
        lemma_first_level(edges, seeds, v, (k - 1) as nat)
    }
}

/// What a search towards `t` has recorded: the exact levels, as far as `t` needs them.
pub open spec fn levels_for(
    levels: Seq<u32>,
    edges: Seq<Edge>,
    s: int,
    t: int,
) -> bool {
    &&& levels[t] != UNREACHED <==> reachable(edges, set![s], t)
    &&& forall|v: int|
        0 <= v < levels.len() && #[trigger] levels[v] != UNREACHED ==> at_level(
            edges,
            set![s],
            v,
            levels[v] as nat,
        )
    &&& levels[t] != UNREACHED ==> forall|v: int, l: nat|
        #![trigger at_level(edges, set![s], v, l)]
        0 <= v < levels.len() && l <= levels[t] && at_level(edges, set![s], v, l) ==> levels[v] == l
}

/// Searches from `s` until `t` is found.
fn levels_towards(snap: &CsrSnapshot, s: u32, t: u32) -> (levels: Vec<u32>)
    requires
        snap.wf(),
        s < snap.n(),
        t < snap.n(),
    ensures
        levels@.len() == snap.n(),
        levels_for(levels@, snap.edges@, s as int, t as int),
{
    let levels: Vec<u32> = hop_distances(snap, s, Some(t));
    proof {
        let edges = snap.edges@;
        let seeds = set![s as int];
        let h = if reachable(edges, seeds, t as int) {
            let k = choose|k: nat| #[trigger] within(edges, seeds, k).contains(t as int);
            lemma_first_level(edges, seeds, t as int, k)
        } else {
            choose|h: nat|
                #[trigger] levels_to(levels@, edges, seeds, h) && h <= snap.n() && within(
                    edges,
                    seeds,
                    h + 1,
                ) == within(edges, seeds, h)
        };
        assert(levels_to(levels@, edges, seeds, h));
        if levels@[t as int] != UNREACHED {
            assert(within(edges, seeds, h).contains(t as int));
            assert forall|v: int, l: nat|
                #![trigger at_level(edges, seeds, v, l)]
                0 <= v < levels@.len() && l <= levels@[t as int] && at_level(
                    edges,
                    seeds,
                    v,
                    l,
                ) implies levels@[v] == l by {
                lemma_within_mono(edges, seeds, l, h);
                lemma_level_unique(edges, seeds, v, l, levels@[v] as nat);
            }
        }
    }
    levels
}

/// `u` is the first source in `row` that is `l` steps away from `s`.
pub open spec fn first_at(row: Seq<Edge>, edges: Seq<Edge>, s: int, l: nat, u: int) -> bool {
    exists|k: int|
        0 <= k < row.len() && (#[trigger] row[k]).src == u && at_level(edges, set![s], u, l)
            && forall|j: int|
            0 <= j < k ==> !at_level(edges, set![s], (#[trigger] row[j]).src, l)
}

/// The shortest walk that a backward trace finds: at every node it takes the
/// first incoming edge, in ascending order of the edges, that comes from one step
/// closer.
pub open spec fn traced(edges: Seq<Edge>, s: int, t: int, p: Seq<int>) -> bool {
    &&& shortest_walk(edges, s, t, p)
    &&& forall|i: int|
        0 <= i < p.len() - 1 ==> first_at(
            edges.filter(entering(p[i + 1])),
            edges,
            s,
            i as nat,
            #[trigger] p[i],
        )
}

/// A backward trace finds one walk: which of several equally short ones it is depends on
/// the graph alone.
pub proof fn lemma_traced_unique(edges: Seq<Edge>, s: int, t: int, p: Seq<int>, q: Seq<int>)
    requires
        traced(edges, s, t, p),
        traced(edges, s, t, q),
    ensures
        p == q,
{
    assert(p.len() == q.len());
    let n = p.len() as int;
    assert forall|k: nat| k < n implies #[trigger] p[n - 1 - k] == q[n - 1 - k] by {
        lemma_traced_from_end(edges, s, t, p, q, k);
    }
    assert forall|i: int| 0 <= i < n implies p[i] == q[i] by {
        let k = (n - 1 - i) as nat;
        assert(p[n - 1 - k] == q[n - 1 - k]);
    }
    assert(p =~= q);
}

proof fn lemma_traced_from_end(
    edges: Seq<Edge>,
    s: int,
    t: int,
    p: Seq<int>,
    q: Seq<int>,
    k: nat,
)
    requires
        traced(edges, s, t, p),
        traced(edges, s, t, q),
        p.len() == q.len(),
        k < p.len(),
    ensures
        p[p.len() - 1 - k] == q[p.len() - 1 - k],
    decreases k,
{
    if k > 0 {
        lemma_traced_from_end(edges, s, t, p, q, (k - 1) as nat);
        let i = p.len() - 1 - k;
        let row = edges.filter(entering(p[i + 1]));
        assert(first_at(row, edges, s, i as nat, p[i]));
        assert(first_at(row, edges, s, i as nat, q[i]));
        let x = choose|x: int|
            0 <= x < row.len() && (#[trigger] row[x]).src == p[i] && at_level(
                edges,
                set![s],
                p[i],
                i as nat,
            ) && forall|j: int|
                0 <= j < x ==> !at_level(edges, set![s], (#[trigger] row[j]).src, i as nat);
        let y = choose|y: int|
            0 <= y < row.len() && (#[trigger] row[y]).src == q[i] && at_level(
                edges,
                set![s],
                q[i],
                i as nat,
            ) && forall|j: int|
                0 <= j < y ==> !at_level(edges, set![s], (#[trigger] row[j]).src, i as nat);
        if x < y {
            assert(at_level(edges, set![s], row[x].src, i as nat));
        } else if y < x {
            assert(at_level(edges, set![s], row[y].src, i as nat));
        }
    }
}

/// The source of the first edge into `v`, in ascending order of the edges, that is at
/// level `l`.
fn find_pred(snap: &CsrSnapshot, levels: &Vec<u32>, v: usize, l: u32, s: Ghost<int>, t: Ghost<int>) -> (u:
    u32)
    requires
        snap.wf(),
        levels@.len() == snap.n(),
        v < snap.n(),
        0 <= t@ < snap.n(),
        levels_for(levels@, snap.edges@, s@, t@),
        levels@[t@] != UNREACHED,
        l < levels@[t@],
        at_level(snap.edges@, set![s@], v as int, (l + 1) as nat),
    ensures
        u < snap.n(),
        arc(snap.edges@, u as int, v as int),
        at_level(snap.edges@, set![s@], u as int, l as nat),
        first_at(snap.edges@.filter(entering(v as int)), snap.edges@, s@, l as nat, u as int),
{
    let ghost edges = snap.edges@;
    let ghost row = snap.in_row(v as int);
    let lo: usize = snap.in_row_ptr[v];
    let hi: usize = snap.in_row_ptr[v + 1];
    let mut k: usize = lo;
    while k < hi
        invariant
            snap.wf(),
            edges == snap.edges@,
            levels@.len() == snap.n(),
            v < snap.n(),
            0 <= t@ < snap.n(),
            levels_for(levels@, edges, s@, t@),
            levels@[t@] != UNREACHED,
            l < levels@[t@],
            row == snap.in_row(v as int),
            lo == snap.in_row_ptr@[v as int],
            hi == snap.in_row_ptr@[v + 1],
            lo <= k <= hi <= edges.len(),
            forall|j: int|
                0 <= j < k - lo ==> !at_level(edges, set![s@], (#[trigger] row[j]).src, l as nat),
        decreases hi - k,
    {
        let u: u32 = snap.in_col_idx[k];
        if levels[u as usize] == l {
            proof {
                snap.lemma_in_slot_is_arc(v as int, k as int);
                assert(row[k - lo].src == u);
            }
            return u;
        }
        proof {
            assert(row[k - lo].src == u);
        }
        k = k + 1;
    }
    proof {
        let u = lemma_level_pred(edges, set![s@], v as int, (l + 1) as nat);
        let q = snap.lemma_arc_has_in_slot(u, v as int);
        assert(row[q - lo].src == u);
    }
    0
}

/// Unweighted shortest path from `src` to `dst`, by hop count. Of several equally short
/// ones it is the one that a trace back from `dst` finds when it takes the earliest edge
/// wherever it has a choice.
pub fn shortest_path(snap: &CsrSnapshot, src: NodeId, dst: NodeId) -> (r: Option<Vec<NodeId>>)
    requires
        snap.wf(),
    ensures
        src == dst ==> (r matches Some(p) && p@ == seq![src]),
        src != dst ==> ({
            let ids = snap.dense_to_id@;
            let s = dense_of(ids, src);
            let t = dense_of(ids, dst);
            if ids.contains(src) && ids.contains(dst) && reachable(snap.edges@, set![s], t) {
                r matches Some(p) && exists|q: Seq<int>|
                    #[trigger] traced(snap.edges@, s, t, q) && p@ == ids_of(ids, q)
            } else {
                r is None
            }
        }),
{
    if src == dst {
        let out: Vec<NodeId> = vec![src];
        assert(out@ =~= seq![src]);
        return Some(out);
    }
    let (s, t) = match (snap.dense(src), snap.dense(dst)) {
        (Some(s), Some(t)) => (s, t),
        _ => {
            return None;
        },
    };
    let ghost ids = snap.dense_to_id@;
    let ghost edges = snap.edges@;
    proof {
        lemma_index_unique(ids, s as int);
        lemma_index_unique(ids, t as int);
    }
    let levels: Vec<u32> = levels_towards(snap, s as u32, t as u32);
    if levels[t] == UNREACHED {
        return None;
    }
    let top: u32 = levels[t];
    let mut rev: Vec<u32> = vec![t as u32];
    let mut cur: u32 = t as u32;
    let mut l: u32 = top;
    assert(rev@ =~= seq![t as u32]);
    while l > 0
        invariant
            snap.wf(),
            ids == snap.dense_to_id@,
            edges == snap.edges@,
            levels@.len() == snap.n(),
            s < snap.n(),
            t < snap.n(),
            levels_for(levels@, edges, s as int, t as int),
            levels@[t as int] == top,
            top != UNREACHED,
            l <= top,
            rev@.len() == top - l + 1,
            rev@[0] == t,
            cur == rev@.last(),
            at_level(edges, set![s as int], cur as int, l as nat),
            forall|i: int| 0 <= i < rev@.len() ==> (#[trigger] rev@[i]) < snap.n(),
            forall|i: int|
                #![trigger rev@[i]]
                0 <= i < rev@.len() - 1 ==> arc(edges, rev@[i + 1] as int, rev@[i] as int)
                    && first_at(
                    edges.filter(entering(rev@[i] as int)),
                    edges,
                    s as int,
                    (top - i - 1) as nat,
                    rev@[i + 1] as int,
                ),
        decreases l,
    {
        let u: u32 = find_pred(
            snap,
            &levels,
            cur as usize,
            l - 1,
            Ghost(s as int),
            Ghost(t as int),
        );
        rev.push(u);
        cur = u;
        l = l - 1;
    }
    assert(cur == s);
    let ghost q = Seq::new(rev@.len(), |i: int| rev@[rev@.len() - 1 - i] as int);
    let mut out: Vec<NodeId> = Vec::new();
    let mut i: usize = rev.len();
    while i > 0
        invariant
            snap.wf(),
            ids == snap.dense_to_id@,
            i <= rev@.len(),
            forall|k: int| 0 <= k < rev@.len() ==> (#[trigger] rev@[k]) < snap.n(),
            out@.len() == rev@.len() - i,
            forall|k: int|
                0 <= k < out@.len() ==> #[trigger] out@[k] == ids[rev@[rev@.len() - 1 - k] as int],
        decreases i,
    {
        i = i - 1;
        out.push(snap.dense_to_id[rev[i] as usize]);
    }
    proof {
        assert(walk_between(edges, s as int, t as int, q)) by {
            assert forall|k: int| 0 <= k < q.len() - 1 implies arc(edges, #[trigger] q[k], q[k
                + 1]) by {
                let j = rev@.len() - 2 - k;
                assert(arc(edges, rev@[j + 1] as int, rev@[j] as int));
            }
        }
        lemma_level_is_shortest(edges, s as int, t as int, top as nat, q);
        assert forall|k: int| 0 <= k < q.len() - 1 implies first_at(
            edges.filter(entering(q[k + 1])),
            edges,
            s as int,
            k as nat,
            #[trigger] q[k],
        ) by {
            let j = rev@.len() - 2 - k;
            assert(rev@[j] as int == q[k + 1]);
            assert(rev@[j + 1] as int == q[k]);
        }
        assert(traced(edges, s as int, t as int, q));
        assert(out@ =~= ids_of(ids, q));
    }
    Some(out)
}

/// The sources in `row` that are `l` steps away from `s`, each once, in row order.
pub open spec fn sources_at(row: Seq<Edge>, edges: Seq<Edge>, s: int, l: nat) -> Seq<int>
    decreases row.len(),
{
    if row.len() == 0 {
        Seq::empty()
    } else {
        let before = sources_at(row.drop_last(), edges, s, l);
        let u = row.last().src;
        if at_level(edges, set![s], u, l) && !before.contains(u) {
            before.push(u)
        } else {
            before
        }
    }
}

/// The walks of `l` edges from `s` to `u`, where `u` is `l` steps away from `s`,
/// in the order of the adjacency entries of their nodes, last node first.
pub open spec fn walks_to(
    ids: Seq<NodeId>,
    edges: Seq<Edge>,
    s: int,
    u: int,
    l: nat,
) -> Seq<Seq<int>>
    decreases l, 1int, 0int,
{
    if l == 0 {
        seq![seq![u]]
    } else {
        walks_through(
            ids,
            edges,
            s,
            u,
            l,
            sources_at(entry_row(ids, edges, u), edges, s, (l - 1) as nat),
        )
    }
}

/// The walks of `l` edges from `s` to `u` whose last step comes from one of `preds`.
pub open spec fn walks_through(
    ids: Seq<NodeId>,
    edges: Seq<Edge>,
    s: int,
    u: int,
    l: nat,
    preds: Seq<int>,
) -> Seq<Seq<int>>
    decreases l, 0int, preds.len(),
{
    if preds.len() == 0 || l == 0 {
        Seq::empty()
    } else {
        walks_through(ids, edges, s, u, l, preds.drop_last()) + walks_to(
            ids,
            edges,
            s,
            preds.last(),
            (l - 1) as nat,
        ).map_values(|q: Seq<int>| q.push(u))
    }
}

pub proof fn lemma_sources_at(row: Seq<Edge>, edges: Seq<Edge>, s: int, l: nat)
    ensures
        sources_at(row, edges, s, l).no_duplicates(),
        forall|u: int|
            #[trigger] sources_at(row, edges, s, l).contains(u) <==> at_level(edges, set![s], u, l)
                && exists|k: int| 0 <= k < row.len() && (#[trigger] row[k]).src == u,
    decreases row.len(),
{
    if row.len() > 0 {
        let row0 = row.drop_last();
        let before = sources_at(row0, edges, s, l);
        let all = sources_at(row, edges, s, l);
        lemma_sources_at(row0, edges, s, l);
        let last = row.last().src;
        assert forall|u: int| #[trigger] all.contains(u) <==> at_level(edges, set![s], u, l)
            && exists|k: int| 0 <= k < row.len() && (#[trigger] row[k]).src == u by {
            if all.contains(u) && u != last {
                let q = choose|q: int| 0 <= q < all.len() && all[q] == u;
                assert(before[q] == u);
                assert(before.contains(u));
                let k = choose|k: int| 0 <= k < row0.len() && (#[trigger] row0[k]).src == u;
                assert(row[k].src == u);
            }
            if all.contains(u) && u == last {
                assert(row[row.len() - 1].src == u);
                if !at_level(edges, set![s], u, l) {
                    assert(before.contains(u));
                }
            }
            if at_level(edges, set![s], u, l) && exists|k: int|
                0 <= k < row.len() && (#[trigger] row[k]).src == u {
                let k = choose|k: int| 0 <= k < row.len() && (#[trigger] row[k]).src == u;
                if k < row0.len() {
                    assert(row0[k].src == u);
                    assert(before.contains(u));
                    let q = choose|q: int| 0 <= q < before.len() && before[q] == u;
                    assert(all[q] == u);
                } else if !before.contains(u) {
                    assert(all[all.len() - 1] == u);
                } else {
                    assert(all == before);
                }
            }
        }
    }
}

/// The enumeration by incoming edges finds every shortest walk, and each once.
pub proof fn lemma_walks_to(ids: Seq<NodeId>, edges: Seq<Edge>, s: int, u: int, l: nat)
    requires
        edges_ascending(edges),
        at_level(edges, set![s], u, l),
    ensures
        walks_to(ids, edges, s, u, l).no_duplicates(),
        forall|p: Seq<int>|
            #[trigger] walks_to(ids, edges, s, u, l).contains(p) <==> walk_between(edges, s, u, p)
                && p.len() == l + 1,
    decreases l, 1int, 0int,
{
    let all = walks_to(ids, edges, s, u, l);
    if l == 0 {
        assert forall|p: Seq<int>| #[trigger] all.contains(p) <==> walk_between(edges, s, u, p)
            && p.len() == l + 1 by {
            if all.contains(p) {
                let i = choose|i: int| 0 <= i < all.len() && all[i] == p;
                assert(p == seq![u]);
            }
            if walk_between(edges, s, u, p) && p.len() == 1 {
                assert(p =~= seq![u]);
                assert(all[0] == p);
            }
        }
    } else {
        let row = entry_row(ids, edges, u);
        let preds = sources_at(row, edges, s, (l - 1) as nat);
        lemma_sources_at(row, edges, s, (l - 1) as nat);
        assert forall|i: int| 0 <= i < preds.len() implies at_level(
            edges,
            set![s],
            #[trigger] preds[i],
            (l - 1) as nat,
        ) && arc(edges, preds[i], u) by {
            assert(preds.contains(preds[i]));
            let k = choose|k: int| 0 <= k < row.len() && (#[trigger] row[k]).src == preds[i];
            let j = lemma_entry_at(ids, edges, u, k);
            assert(edges[j].src == preds[i] && edges[j].dst == u);
        }
        lemma_walks_through(ids, edges, s, u, l, preds);
        assert forall|p: Seq<int>| #[trigger] all.contains(p) <==> walk_between(edges, s, u, p)
            && p.len() == l + 1 by {
            if walk_between(edges, s, u, p) && p.len() == l + 1 {
                lemma_level_is_shortest(edges, s, u, l, p);
                lemma_shortest_levels(edges, s, u, p, l - 1);
                let w = p[l - 1];
                assert(arc(edges, p[l - 1], p[l - 1 + 1]));
                let j = choose|j: int|
                    0 <= j < edges.len() && (#[trigger] edges[j]).src == w && edges[j].dst == u;
                let k = lemma_entry_of(ids, edges, u, j);
                assert(row[k].src == w);
                assert(preds.contains(w));
            }
        }
    }
}

proof fn lemma_walks_through(
    ids: Seq<NodeId>,
    edges: Seq<Edge>,
    s: int,
    u: int,
    l: nat,
    preds: Seq<int>,
)
    requires
        edges_ascending(edges),
        l > 0,
        preds.no_duplicates(),
        forall|i: int|
            0 <= i < preds.len() ==> at_level(edges, set![s], #[trigger] preds[i], (l - 1) as nat)
                && arc(edges, preds[i], u),
    ensures
        walks_through(ids, edges, s, u, l, preds).no_duplicates(),
        forall|p: Seq<int>|
            #[trigger] walks_through(ids, edges, s, u, l, preds).contains(p) <==> walk_between(
                edges,
                s,
                u,
                p,
            ) && p.len() == l + 1 && preds.contains(p[l - 1]),
    decreases l, 0int, preds.len(),
{
    let all = walks_through(ids, edges, s, u, l, preds);
    if preds.len() == 0 {
        assert forall|p: Seq<int>| !#[trigger] all.contains(p) by {}
    } else {
        let preds0 = preds.drop_last();
        let w = preds.last();
        let left = walks_through(ids, edges, s, u, l, preds0);
        let heads = walks_to(ids, edges, s, w, (l - 1) as nat);
        let right = heads.map_values(|q: Seq<int>| q.push(u));
        assert(w == preds[preds.len() - 1]);
        assert forall|i: int| 0 <= i < preds0.len() implies at_level(
            edges,
            set![s],
            #[trigger] preds0[i],
            (l - 1) as nat,
        ) && arc(edges, preds0[i], u) by {
            assert(preds0[i] == preds[i]);
        }
        lemma_walks_through(ids, edges, s, u, l, preds0);
        lemma_walks_to(ids, edges, s, w, (l - 1) as nat);
        assert(!preds0.contains(w)) by {
            if preds0.contains(w) {
                let i = choose|i: int| 0 <= i < preds0.len() && preds0[i] == w;
                assert(preds[i] == w);
            }
        }
        assert forall|p: Seq<int>| #[trigger] right.contains(p) <==> walk_between(edges, s, u, p) && p.len()
            == l + 1 && p[l - 1] == w by {
            if right.contains(p) {
                let i = choose|i: int| 0 <= i < right.len() && right[i] == p;
                let q = heads[i];
                assert(heads.contains(q));
                assert(p == q.push(u));
                assert(is_walk(edges, p)) by {
                    assert forall|j: int| 0 <= j < p.len() - 1 implies arc(
                        edges,
                        #[trigger] p[j],
                        p[j + 1],
                    ) by {
                        if j < q.len() - 1 {
                            assert(arc(edges, q[j], q[j + 1]));
                        }
                    }
                }
            }
            if walk_between(edges, s, u, p) && p.len() == l + 1 && p[l - 1] == w {
                let q = p.drop_last();
                assert(is_walk(edges, q)) by {
                    assert forall|j: int| 0 <= j < q.len() - 1 implies arc(
                        edges,
                        #[trigger] q[j],
                        q[j + 1],
                    ) by {
                        assert(arc(edges, p[j], p[j + 1]));
                    }
                }
                assert(walk_between(edges, s, w, q));
                assert(heads.contains(q));
                let i = choose|i: int| 0 <= i < heads.len() && heads[i] == q;
                assert(q.push(u) =~= p);
                assert(right[i] == p);
            }
        }
        assert(all == left + right);
        assert forall|p: Seq<int>| #[trigger] all.contains(p) <==> walk_between(edges, s, u, p)
            && p.len() == l + 1 && preds.contains(p[l - 1]) by {
            if all.contains(p) {
                let i = choose|i: int| 0 <= i < all.len() && all[i] == p;
                if i < left.len() {
                    assert(left.contains(left[i]));
                    let j = choose|j: int| 0 <= j < preds0.len() && preds0[j] == p[l - 1];
                    assert(preds[j] == p[l - 1]);
                } else {
                    assert(right[i - left.len()] == p);
                    assert(right.contains(p));
                    assert(preds[preds.len() - 1] == p[l - 1]);
                }
            }
            if walk_between(edges, s, u, p) && p.len() == l + 1 && preds.contains(p[l - 1]) {
                let j = choose|j: int| 0 <= j < preds.len() && preds[j] == p[l - 1];
                if j < preds0.len() {
                    assert(preds0[j] == p[l - 1]);
                    assert(left.contains(p));
                    let i = choose|i: int| 0 <= i < left.len() && left[i] == p;
                    assert(all[i] == p);
                } else {
                    assert(right.contains(p));
                    let i = choose|i: int| 0 <= i < right.len() && right[i] == p;
                    assert(all[left.len() + i] == p);
                }
            }
        }
        assert(all.no_duplicates()) by {
            assert forall|i: int, j: int| 0 <= i < j < all.len() implies all[i] != all[j] by {
                if j < left.len() {
                    assert(left[i] != left[j]);
                } else if i >= left.len() {
                    let a = heads[i - left.len()];
                    let b = heads[j - left.len()];
                    assert(a != b);
                    assert(all[i] == a.push(u) && all[j] == b.push(u));
                    assert(all[i].drop_last() =~= a);
                    assert(all[j].drop_last() =~= b);
                } else {
                    assert(left.contains(left[i]));
                    assert(right.contains(right[j - left.len()]));
                    assert(preds0.contains(all[i][l - 1]));
                    assert(all[j][l - 1] == w);
                }
            }
        }
    }
}

/// The contents of a list of paths.
pub open spec fn deep(paths: Seq<Vec<NodeId>>) -> Seq<Seq<NodeId>> {
    paths.map_values(|p: Vec<NodeId>| p@)
}

/// A walk with its ids, followed by the nodes still ahead of it in `back`, which
/// lists them last node first and ends with the end of the walk.
pub open spec fn completed(ids: Seq<NodeId>, back: Seq<NodeId>) -> spec_fn(Seq<int>) -> Seq<NodeId> {
    |q: Seq<int>| ids_of(ids, q) + back.drop_last().reverse()
}

fn reversed(v: &Vec<NodeId>) -> (out: Vec<NodeId>)
    ensures
        out@ == v@.reverse(),
{
    let mut out: Vec<NodeId> = Vec::new();
    let mut i: usize = v.len();
    while i > 0
        invariant
            i <= v@.len(),
            out@.len() == v@.len() - i,
            forall|k: int| 0 <= k < out@.len() ==> #[trigger] out@[k] == v@[v@.len() - 1 - k],
        decreases i,
    {
        i = i - 1;
        out.push(v[i]);
    }
    assert(out@ =~= v@.reverse());
    out
}

/// Collects the shortest walks that end with the nodes of `back`.
fn collect_shortest(
    snap: &CsrSnapshot,
    levels: &Vec<u32>,
    u: usize,
    l: u32,
    back: &mut Vec<NodeId>,
    paths: &mut Vec<Vec<NodeId>>,
    s: Ghost<int>,
    t: Ghost<int>,
)
    requires
        snap.wf(),
        levels@.len() == snap.n(),
        u < snap.n(),
        0 <= t@ < snap.n(),
        levels_for(levels@, snap.edges@, s@, t@),
        levels@[t@] != UNREACHED,
        l <= levels@[t@],
        at_level(snap.edges@, set![s@], u as int, l as nat),
        old(back)@.len() > 0,
        old(back)@.last() == snap.dense_to_id@[u as int],
    ensures
        final(back)@ == old(back)@,
        deep(final(paths)@) == deep(old(paths)@) + walks_to(
            snap.dense_to_id@,
            snap.edges@,
            s@,
            u as int,
            l as nat,
        ).map_values(completed(snap.dense_to_id@, old(back)@)),
    decreases l,
{
    let ghost ids = snap.dense_to_id@;
    let ghost edges = snap.edges@;
    let ghost back0 = back@;
    let ghost paths0 = deep(paths@);
    let ghost f = completed(ids, back0);
    if l == 0 {
        paths.push(reversed(back));
        proof {
            let q = seq![u as int];
            assert(walks_to(ids, edges, s@, u as int, 0) =~= seq![q]);
            assert(f(q) =~= back0.reverse());
            assert(deep(paths@) =~= paths0 + seq![q].map_values(f));
        }
        return;
    }
    let ghost row = entry_row(ids, edges, u as int);
    let list: Vec<(usize, EdgeId)> = incoming_entries(snap, u);
    let mut seen: ahash::AHashSet<u64> = new_ids();
    let mut k: usize = 0;
    proof {
        assert(row.take(0) =~= Seq::empty());
        assert(sources_at(row.take(0), edges, s@, (l - 1) as nat) =~= Seq::empty());
        assert(paths0 + walks_through(
            ids,
            edges,
            s@,
            u as int,
            l as nat,
            Seq::empty(),
        ).map_values(f) =~= paths0);
    }
    while k < list.len()
        invariant
            snap.wf(),
            ids == snap.dense_to_id@,
            edges == snap.edges@,
            levels@.len() == snap.n(),
            u < snap.n(),
            0 <= t@ < snap.n(),
            levels_for(levels@, edges, s@, t@),
            levels@[t@] != UNREACHED,
            0 < l <= levels@[t@],
            list@.len() == row.len(),
            forall|j: int|
                0 <= j < list@.len() ==> (#[trigger] list@[j]).0 == row[j].src && list@[j].0
                    < snap.n(),
            k <= list@.len(),
            back@ == back0,
            back0.len() > 0,
            back0.last() == ids[u as int],
            f == completed(ids, back0),
            forall|d: int|
                0 <= d < snap.n() ==> (ids_in(seen).contains(#[trigger] ids[d]) <==> sources_at(
                    row.take(k as int),
                    edges,
                    s@,
                    (l - 1) as nat,
                ).contains(d)),
            deep(paths@) == paths0 + walks_through(
                ids,
                edges,
                s@,
                u as int,
                l as nat,
                sources_at(row.take(k as int), edges, s@, (l - 1) as nat),
            ).map_values(f),
        decreases list@.len() - k,
    {
        let ghost part = row.take(k as int);
        let ghost before = sources_at(part, edges, s@, (l - 1) as nat);
        let w: usize = list[k].0;
        proof {
            assert(row.take(k + 1).drop_last() =~= part);
            assert(row.take(k + 1).last() == row[k as int]);
            assert(row[k as int].src == w);
            assert(levels@[w as int] == l - 1 <==> at_level(
                edges,
                set![s@],
                w as int,
                (l - 1) as nat,
            ));
        }
        if levels[w] == l - 1 {
            let id: NodeId = snap.dense_to_id[w];
            let ghost seen0 = ids_in(seen);
            let new: bool = insert_id(&mut seen, id);
            proof {
                assert forall|d: int| 0 <= d < snap.n() implies (ids_in(seen).contains(
                    #[trigger] ids[d],
                ) <==> before.contains(d) || d == w) by {
                    assert(seen0.contains(ids[d]) <==> before.contains(d));
                    if d != w {
                        assert(ids[d] != ids[w as int]);
                    }
                }
            }
            if new {
                back.push(id);
                let ghost paths1 = deep(paths@);
                collect_shortest(snap, levels, w, l - 1, back, paths, s, t);
                let popped = back.pop();
                proof {
                    let preds = before.push(w as int);
                    let heads = walks_to(ids, edges, s@, w as int, (l - 1) as nat);
                    let tail = heads.map_values(|q: Seq<int>| q.push(u as int));
                    assert(preds.drop_last() =~= before);
                    assert(walks_through(ids, edges, s@, u as int, l as nat, preds) == walks_through(
                        ids,
                        edges,
                        s@,
                        u as int,
                        l as nat,
                        before,
                    ) + tail);
                    let g = completed(ids, back0.push(id));
                    assert(heads.map_values(g) =~= tail.map_values(f)) by {
                        assert forall|i: int| 0 <= i < heads.len() implies #[trigger] g(heads[i])
                            == f(tail[i]) by {
                            let q = heads[i];
                            assert(tail[i] == q.push(u as int));
                            assert(back0.push(id).drop_last() =~= back0);
                            assert(back0.reverse() =~= seq![ids[u as int]]
                                + back0.drop_last().reverse());
                            assert(ids_of(ids, q.push(u as int)) =~= ids_of(ids, q)
                                + seq![ids[u as int]]);
                            assert(g(q) =~= f(q.push(u as int)));
                        }
                    }
                    assert(back@ =~= back0);
                    assert(deep(paths@) =~= paths0 + walks_through(
                        ids,
                        edges,
                        s@,
                        u as int,
                        l as nat,
                        preds,
                    ).map_values(f));
                    assert(preds[before.len() as int] == w);
                    assert forall|d: int| preds.contains(d) <==> before.contains(d) || d == w by {
                        if before.contains(d) {
                            let i = choose|i: int| 0 <= i < before.len() && before[i] == d;
                            assert(preds[i] == d);
                        }
                    }
                }
            }
        }
        k = k + 1;
    }
    assert(row.take(k as int) =~= row);
}

/// Every unweighted shortest path between `src` and `dst`, each once. Parallel
/// edges make no second path: a path is a sequence of nodes.
pub fn all_shortest_paths(snap: &CsrSnapshot, src: NodeId, dst: NodeId) -> (r: Vec<Vec<NodeId>>)
    requires
        snap.wf(),
    ensures
        src == dst ==> deep(r@) == seq![seq![src]],
        src != dst ==> ({
            let ids = snap.dense_to_id@;
            let s = dense_of(ids, src);
            let t = dense_of(ids, dst);
            if ids.contains(src) && ids.contains(dst) && reachable(snap.edges@, set![s], t) {
                forall|l: nat|
                    #[trigger] at_level(snap.edges@, set![s], t, l) ==> deep(r@) == walks_to(
                        snap.dense_to_id@,
                        snap.edges@,
                        s,
                        t,
                        l,
                    ).map_values(|q: Seq<int>| ids_of(ids, q))
            } else {
                r@.len() == 0
            }
        }),
{
    let mut paths: Vec<Vec<NodeId>> = Vec::new();
    if src == dst {
        let only: Vec<NodeId> = vec![src];
        assert(only@ =~= seq![src]);
        paths.push(only);
        assert(deep(paths@) =~= seq![seq![src]]);
        return paths;
    }
    let (s, t) = match (snap.dense(src), snap.dense(dst)) {
        (Some(s), Some(t)) => (s, t),
        _ => {
            return paths;
        },
    };
    let ghost ids = snap.dense_to_id@;
    let ghost edges = snap.edges@;
    proof {
        lemma_index_unique(ids, s as int);
        lemma_index_unique(ids, t as int);
    }
    let levels: Vec<u32> = levels_towards(snap, s as u32, t as u32);
    if levels[t] == UNREACHED {
        return paths;
    }
    let mut back: Vec<NodeId> = vec![dst];
    assert(back@ =~= seq![dst]);
    collect_shortest(
        snap,
        &levels,
        t,
        levels[t],
        &mut back,
        &mut paths,
        Ghost(s as int),
        Ghost(t as int),
    );
    proof {
        let l0 = levels@[t as int] as nat;
        let f = completed(ids, seq![dst]);
        assert forall|l: nat| #[trigger] at_level(edges, set![s as int], t as int, l) implies deep(
            paths@,
        ) == walks_to(ids, edges, s as int, t as int, l).map_values(|q: Seq<int>| ids_of(ids, q)) by {
            lemma_level_unique(edges, set![s as int], t as int, l, l0);
            let all = walks_to(ids, edges, s as int, t as int, l);
            assert forall|i: int| 0 <= i < all.len() implies f(#[trigger] all[i]) == ids_of(
                ids,
                all[i],
            ) by {
                assert(f(all[i]) =~= ids_of(ids, all[i]));
            }
            assert(deep(paths@) =~= all.map_values(|q: Seq<int>| ids_of(ids, q)));
        }
    }
    paths
}

} // verus!
