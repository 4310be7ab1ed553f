//! Simple paths, those that visit no node twice: all of them, and the longest.

use vstd::prelude::*;

use crate::csr::{leaving, lemma_index_unique, CsrSnapshot, Edge};
use crate::paths::{deep, ids_of, is_walk, walk_between};
use crate::schema::NodeId;
use crate::sets::{contains_id, ids_in, insert_id, new_ids, remove_id};
use crate::traversal::{arc, dense_of};

verus! {

/// A walk from `s` to `t` that visits no node twice.
pub open spec fn simple_path(edges: Seq<Edge>, s: int, t: int, p: Seq<int>) -> bool {
    walk_between(edges, s, t, p) && p.no_duplicates()
}

/// The simple paths to `t` that extend `p`, in the order of the outgoing edges;
/// `spare` bounds how many nodes they add. Parallel edges repeat a path.
pub open spec fn extensions(edges: Seq<Edge>, p: Seq<int>, t: int, spare: nat) -> Seq<Seq<int>>
    decreases spare, 1int, 0int,
{
    if p.last() == t {
        seq![p]
    } else if spare == 0 {
        Seq::empty()
    } else {
        extensions_over(edges, edges.filter(leaving(p.last())), p, t, spare)
    }
}

/// The simple paths to `t` that extend `p` by one of the edges of `row` first.
pub open spec fn extensions_over(
    edges: Seq<Edge>,
    row: Seq<Edge>,
    p: Seq<int>,
    t: int,
    spare: nat,
) -> Seq<Seq<int>>
    decreases spare, 0int, row.len(),
{
    if row.len() == 0 || spare == 0 {
        Seq::empty()
    } else {
        let before = extensions_over(edges, row.drop_last(), p, t, spare);
        let v = row.last().dst;
        if p.contains(v) {
            before
        } else {
            before + extensions(edges, p.push(v), t, (spare - 1) as nat)
        }
    }
}

/// The first of the longest among `best` and `list`.
pub open spec fn longer(best: Option<Seq<int>>, list: Seq<Seq<int>>) -> Option<Seq<int>>
    decreases list.len(),
{
    if list.len() == 0 {
        best
    } else {
        let b = longer(best, list.drop_last());
        if b is None || list.last().len() > b->0.len() {
            Some(list.last())
        } else {
            b
        }
    }
}

proof fn lemma_longer_add(best: Option<Seq<int>>, a: Seq<Seq<int>>, b: Seq<Seq<int>>)
    ensures
        longer(best, a + b) == longer(longer(best, a), b),
    decreases b.len(),
{
    if b.len() == 0 {
        assert(a + b =~= a);
    } else {
        assert((a + b).drop_last() =~= a + b.drop_last());
        lemma_longer_add(best, a, b.drop_last());
    }
}

/// The pick is one of the list, none of the list is longer, and where several
/// are as long it is the first of them.
pub proof fn lemma_longer(list: Seq<Seq<int>>)
    ensures
        longer(None, list) is None <==> list.len() == 0,
        longer(None, list) matches Some(p) ==> {
            &&& list.contains(p)
            &&& forall|i: int| 0 <= i < list.len() ==> (#[trigger] list[i]).len() <= p.len()
            &&& exists|k: int|
                0 <= k < list.len() && list[k] == p && forall|i: int|
                    0 <= i < k ==> (#[trigger] list[i]).len() < p.len()
        },
    decreases list.len(),
{
    if list.len() > 0 {
        let rest = list.drop_last();
        lemma_longer(rest);
        let b = longer(None, rest);
        let r = longer(None, list)->0;
        assert forall|i: int| 0 <= i < list.len() implies (#[trigger] list[i]).len()
            <= r.len() by {
            if i < rest.len() {
                assert(rest[i] == list[i]);
            }
        }
        if b is None || list.last().len() > b->0.len() {
            let k = list.len() - 1;
            assert(list[k] == r);
            assert forall|i: int| 0 <= i < k implies (#[trigger] list[i]).len() < r.len() by {
                assert(rest[i] == list[i]);
            }
        } else {
            let k = choose|k: int|
                0 <= k < rest.len() && rest[k] == b->0 && forall|i: int|
                    0 <= i < k ==> (#[trigger] rest[i]).len() < b->0.len();
            assert(list[k] == r);
            assert forall|i: int| 0 <= i < k implies (#[trigger] list[i]).len() < r.len() by {
                assert(rest[i] == list[i]);
            }
        }
    }
}

/// Distinct nodes below `n` are at most `n`.
pub proof fn lemma_distinct_bound(p: Seq<int>, n: nat)
    requires
        p.no_duplicates(),
        forall|i: int| 0 <= i < p.len() ==> 0 <= #[trigger] p[i] < n,
    ensures
        p.len() <= n,
{
    let all = vstd::set_lib::set_int_range(0, n as int);
    vstd::set_lib::lemma_int_range(0, n as int);
    p.unique_seq_to_set();
    assert(p.to_set().subset_of(all)) by {
        assert forall|v: int| p.to_set().contains(v) implies all.contains(v) by {
            let i = choose|i: int| 0 <= i < p.len() && p[i] == v;
        }
    }
    vstd::set_lib::lemma_len_subset(p.to_set(), all);
}

/// `q` starts with `p`, adds at most `spare` nodes, and is a simple path to `t`.
pub open spec fn extends(edges: Seq<Edge>, p: Seq<int>, t: int, spare: nat, q: Seq<int>) -> bool {
    &&& p.is_prefix_of(q)
    &&& q.len() <= p.len() + spare
    &&& is_walk(edges, q)
    &&& q.no_duplicates()
    &&& q.last() == t
}

/// The enumeration finds the simple paths that extend `p`, and nothing else.
pub proof fn lemma_extensions(edges: Seq<Edge>, p: Seq<int>, t: int, spare: nat)
    requires
        is_walk(edges, p),
        p.no_duplicates(),
        forall|i: int| 0 <= i < p.len() - 1 ==> #[trigger] p[i] != t,
    ensures
        forall|q: Seq<int>|
            #[trigger] extensions(edges, p, t, spare).contains(q) <==> extends(
                edges,
                p,
                t,
                spare,
                q,
            ),
    decreases spare, 1int, 0int,
{
    let all = extensions(edges, p, t, spare);
    assert forall|q: Seq<int>| extends(edges, p, t, spare, q) && p.last() == t implies q == p by {
        if q.len() > p.len() {
            assert(q[p.len() - 1] == p[p.len() - 1]);
            assert(q[q.len() - 1] == q[p.len() - 1]);
        }
        assert(q =~= p);
    }
    if p.last() == t {
        assert forall|q: Seq<int>| #[trigger] all.contains(q) <==> extends(
            edges,
            p,
            t,
            spare,
            q,
        ) by {
            assert(all[0] == p);
            assert(p.is_prefix_of(p));
            if all.contains(q) {
                let i = choose|i: int| 0 <= i < all.len() && all[i] == q;
            }
        }
    } else if spare == 0 {
        assert forall|q: Seq<int>| #[trigger] all.contains(q) <==> extends(
            edges,
            p,
            t,
            spare,
            q,
        ) by {
            if extends(edges, p, t, spare, q) {
                assert(q =~= p);
            }
        }
    } else {
        let u = p.last();
        let row = edges.filter(leaving(u));
        assert forall|k: int| 0 <= k < row.len() implies arc(
            edges,
            u,
            (#[trigger] row[k]).dst,
        ) by {
            edges.lemma_filter_pred(leaving(u), k);
            assert(row.contains(row[k]));
            edges.lemma_filter_contains_rev(leaving(u), row[k]);
            let j = choose|j: int| 0 <= j < edges.len() && edges[j] == row[k];
            assert(edges[j].src == u && edges[j].dst == row[k].dst);
        }
        lemma_extensions_over(edges, row, p, t, spare);
        assert(all == extensions_over(edges, row, p, t, spare));
        assert forall|q: Seq<int>| #[trigger] all.contains(q) <==> extends(
            edges,
            p,
            t,
            spare,
            q,
        ) by {
            if extends(edges, p, t, spare, q) {
                assert(q.subrange(0, p.len() as int) == p);
                if q.len() == p.len() {
                    assert(q =~= p);
                }
                assert(q.len() > p.len());
                assert(q[p.len() - 1] == q.subrange(0, p.len() as int)[p.len() - 1]);
                assert(q[p.len() - 1] == u);
                let v = q[p.len() as int];
                assert(arc(edges, q[p.len() - 1], q[p.len() - 1 + 1]));
                let j = choose|j: int|
                    0 <= j < edges.len() && (#[trigger] edges[j]).src == u && edges[j].dst == v;
                edges.lemma_filter_contains(leaving(u), j);
                let k = choose|k: int| 0 <= k < row.len() && row[k] == edges[j];
                assert(row[k].dst == v);
                assert(leads_to(row, v));
            }
        }
    }
}

/// Whether `v` is the target of one of the edges of `row`.
pub open spec fn leads_to(row: Seq<Edge>, v: int) -> bool {
    exists|k: int| 0 <= k < row.len() && (#[trigger] row[k]).dst == v
}

proof fn lemma_extensions_over(edges: Seq<Edge>, row: Seq<Edge>, p: Seq<int>, t: int, spare: nat)
    requires
        is_walk(edges, p),
        p.no_duplicates(),
        p.last() != t,
        spare > 0,
        forall|i: int| 0 <= i < p.len() - 1 ==> #[trigger] p[i] != t,
        forall|k: int| 0 <= k < row.len() ==> arc(edges, p.last(), (#[trigger] row[k]).dst),
    ensures
        forall|q: Seq<int>|
            #[trigger] extensions_over(edges, row, p, t, spare).contains(q) <==> extends(
                edges,
                p,
                t,
                spare,
                q,
            ) && q.len() > p.len() && leads_to(row, q[p.len() as int]),
    decreases spare, 0int, row.len(),
{
    let all = extensions_over(edges, row, p, t, spare);
    if row.len() == 0 {
        assert forall|q: Seq<int>| #[trigger] all.contains(q) <==> extends(edges, p, t, spare, q)
            && q.len() > p.len() && leads_to(row, q[p.len() as int]) by {}
    } else {
        let row0 = row.drop_last();
        let v = row.last().dst;
        let before = extensions_over(edges, row0, p, t, spare);
        assert forall|k: int| 0 <= k < row0.len() implies arc(
            edges,
            p.last(),
            (#[trigger] row0[k]).dst,
        ) by {
            assert(row0[k] == row[k]);
        }
        lemma_extensions_over(edges, row0, p, t, spare);
        assert(row[row.len() - 1].dst == v);
        assert forall|w: int| #[trigger] leads_to(row, w) <==> leads_to(row0, w) || w == v by {
            if leads_to(row0, w) {
                let k = choose|k: int| 0 <= k < row0.len() && (#[trigger] row0[k]).dst == w;
                assert(row[k].dst == w);
            }
            if leads_to(row, w) && w != v {
                let k = choose|k: int| 0 <= k < row.len() && (#[trigger] row[k]).dst == w;
                assert(row0[k].dst == w);
            }
        }
        if p.contains(v) {
            assert forall|q: Seq<int>| #[trigger] all.contains(q) <==> extends(
                edges,
                p,
                t,
                spare,
                q,
            ) && q.len() > p.len() && leads_to(row, q[p.len() as int]) by {
                if extends(edges, p, t, spare, q) && q.len() > p.len() && q[p.len() as int] == v {
                    let i = choose|i: int| 0 <= i < p.len() && p[i] == v;
                    assert(q[i] == v);
                }
            }
        } else {
            let p1 = p.push(v);
            let more = extensions(edges, p1, t, (spare - 1) as nat);
            assert(is_walk(edges, p1)) by {
                assert forall|i: int| 0 <= i < p1.len() - 1 implies arc(
                    edges,
                    #[trigger] p1[i],
                    p1[i + 1],
                ) by {
                    if i < p.len() - 1 {
                        assert(arc(edges, p[i], p[i + 1]));
                    }
                }
            }
            assert(p1.no_duplicates());
            assert forall|i: int| 0 <= i < p1.len() - 1 implies #[trigger] p1[i] != t by {
                if i < p.len() - 1 {
                    assert(p[i] != t);
                }
            }
            lemma_extensions(edges, p1, t, (spare - 1) as nat);
            assert(all == before + more);
            assert forall|q: Seq<int>| #[trigger] all.contains(q) <==> extends(
                edges,
                p,
                t,
                spare,
                q,
            ) && q.len() > p.len() && leads_to(row, q[p.len() as int]) by {
                if all.contains(q) {
                    let i = choose|i: int| 0 <= i < all.len() && all[i] == q;
                    if i < before.len() {
                        assert(before.contains(before[i]));
                    } else {
                        assert(more.contains(more[i - before.len()]));
                        assert(q[p.len() as int] == p1[p.len() as int]);
                        assert(p.is_prefix_of(q)) by {
                            assert(q.subrange(0, p.len() as int) =~= p1.subrange(
                                0,
                                p.len() as int,
                            ));
                            assert(p =~= p1.subrange(0, p.len() as int));
                        }
                    }
                }
                if extends(edges, p, t, spare, q) && q.len() > p.len() && leads_to(
                    row,
                    q[p.len() as int],
                ) {
                    if q[p.len() as int] == v {
                        assert(p1.is_prefix_of(q)) by {
                            assert(p1 =~= q.subrange(0, p1.len() as int));
                        }
                        assert(more.contains(q));
                        let i = choose|i: int| 0 <= i < more.len() && more[i] == q;
                        assert(all[before.len() + i] == q);
                    } else {
                        assert(before.contains(q));
                        let i = choose|i: int| 0 <= i < before.len() && before[i] == q;
                        assert(all[i] == q);
                    }
                }
            }
        }
    }
}

/// The enumeration from a node finds the simple paths from it, and nothing else.
pub proof fn lemma_simple_paths(edges: Seq<Edge>, s: int, t: int, n: nat)
    requires
        0 <= s < n,
        forall|k: int| 0 <= k < edges.len() ==> 0 <= (#[trigger] edges[k]).dst < n,
    ensures
        forall|q: Seq<int>|
            #[trigger] extensions(edges, seq![s], t, (n - 1) as nat).contains(q) <==> simple_path(
                edges,
                s,
                t,
                q,
            ),
{
    lemma_extensions(edges, seq![s], t, (n - 1) as nat);
    assert forall|q: Seq<int>| #[trigger] extensions(
        edges,
        seq![s],
        t,
        (n - 1) as nat,
    ).contains(q) <==> simple_path(edges, s, t, q) by {
        if extends(edges, seq![s], t, (n - 1) as nat, q) {
            assert(q[0] == seq![s][0]);
        }
        if simple_path(edges, s, t, q) {
            assert forall|i: int| 0 <= i < q.len() implies 0 <= #[trigger] q[i] < n by {
                if i > 0 {
                    assert(arc(edges, q[i - 1], q[i - 1 + 1]));
                    let k = choose|k: int|
                        0 <= k < edges.len() && (#[trigger] edges[k]).src == q[i - 1]
                            && edges[k].dst == q[i];
                }
            }
            lemma_distinct_bound(q, n);
            assert(seq![s] =~= q.subrange(0, 1));
            assert(seq![s].is_prefix_of(q));
        }
    }
}

/// The state of a simple-path search: `path` lists the ids of `p`, and
/// `visited` holds exactly them.
pub open spec fn tracks(
    snap: CsrSnapshot,
    p: Seq<int>,
    path: Seq<NodeId>,
    visited: Set<u64>,
) -> bool {
    &&& p.len() > 0
    &&& p.no_duplicates()
    &&& forall|i: int| 0 <= i < p.len() ==> 0 <= #[trigger] p[i] < snap.n()
    &&& path == ids_of(snap.dense_to_id@, p)
    &&& forall|d: int|
        0 <= d < snap.n() ==> (visited.contains(#[trigger] snap.dense_to_id@[d]) <==> p.contains(d))
}

proof fn lemma_tracks_push(
    snap: CsrSnapshot,
    p: Seq<int>,
    path: Seq<NodeId>,
    visited: Set<u64>,
    v: int,
)
    requires
        snap.wf(),
        tracks(snap, p, path, visited),
        0 <= v < snap.n(),
        !p.contains(v),
    ensures
        tracks(
            snap,
            p.push(v),
            path.push(snap.dense_to_id@[v]),
            visited.insert(snap.dense_to_id@[v]),
        ),
        p.len() < snap.n(),
{
    let q = p.push(v);
    let ids = snap.dense_to_id@;
    assert(ids_of(ids, q) =~= path.push(ids[v]));
    assert(q.no_duplicates());
    assert forall|d: int| 0 <= d < snap.n() implies (visited.insert(ids[v]).contains(
        #[trigger] ids[d],
    ) <==> q.contains(d)) by {
        if d == v {
            assert(q[p.len() as int] == v);
        } else {
            assert(ids[d] != ids[v]);
            if p.contains(d) {
                let i = choose|i: int| 0 <= i < p.len() && p[i] == d;
                assert(q[i] == d);
            }
            if q.contains(d) {
                let i = choose|i: int| 0 <= i < q.len() && q[i] == d;
                assert(p[i] == d);
            }
        }
    }
    assert forall|i: int| 0 <= i < q.len() implies 0 <= #[trigger] q[i] < snap.n() by {
        if i < p.len() {
            assert(q[i] == p[i]);
        }
    }
    lemma_distinct_bound(q, snap.n());
}

proof fn lemma_tracks_pop(
    snap: CsrSnapshot,
    p: Seq<int>,
    path: Seq<NodeId>,
    visited: Set<u64>,
    after: Set<u64>,
    v: int,
)
    requires
        snap.wf(),
        tracks(snap, p, path, visited),
        0 <= v < snap.n(),
        !p.contains(v),
        forall|d: int|
            0 <= d < snap.n() ==> (after.contains(#[trigger] snap.dense_to_id@[d]) <==> p.push(
                v,
            ).contains(d)),
    ensures
        tracks(snap, p, path, after.remove(snap.dense_to_id@[v])),
{
    let ids = snap.dense_to_id@;
    let q = p.push(v);
    assert forall|d: int| 0 <= d < snap.n() implies (after.remove(ids[v]).contains(
        #[trigger] ids[d],
    ) <==> p.contains(d)) by {
        if d != v {
            assert(ids[d] != ids[v]);
            if p.contains(d) {
                let i = choose|i: int| 0 <= i < p.len() && p[i] == d;
                assert(q[i] == d);
            }
            if q.contains(d) {
                let i = choose|i: int| 0 <= i < q.len() && q[i] == d;
                assert(p[i] == d);
            }
        }
    }
}

/// Collects the simple paths that extend the current one.
fn find_paths(
    snap: &CsrSnapshot,
    u: usize,
    t: usize,
    visited: &mut ahash::AHashSet<u64>,
    path: &mut Vec<NodeId>,
    paths: &mut Vec<Vec<NodeId>>,
    p: Ghost<Seq<int>>,
)
    requires
        snap.wf(),
        u < snap.n(),
        t < snap.n(),
        tracks(*snap, p@, old(path)@, ids_in(*old(visited))),
        p@.last() == u,
        p@.len() <= snap.n(),
    ensures
        tracks(*snap, p@, final(path)@, ids_in(*final(visited))),
        deep(final(paths)@) == deep(old(paths)@) + extensions(
            snap.edges@,
            p@,
            t as int,
            (snap.n() - p@.len()) as nat,
        ).map_values(|q: Seq<int>| ids_of(snap.dense_to_id@, q)),
    decreases snap.n() - p@.len(),
{
    let ghost ids = snap.dense_to_id@;
    let ghost edges = snap.edges@;
    let ghost f = |q: Seq<int>| ids_of(ids, q);
    let ghost before = deep(paths@);
    let ghost spare = (snap.n() - p@.len()) as nat;
    if u == t {
        let copy: Vec<NodeId> = path.clone();
        assert(copy@ =~= path@);
        paths.push(copy);
        proof {
            assert(deep(paths@) =~= before + seq![p@].map_values(f));
        }
        return;
    }
    let ghost row = snap.out_row(u as int);
    let lo: usize = snap.row_ptr[u];
    let hi: usize = snap.row_ptr[u + 1];
    let mut k: usize = lo;
    proof {
        assert(row.take(0) =~= Seq::empty());
        assert(deep(paths@) =~= before + extensions_over(
            edges,
            row.take(0),
            p@,
            t as int,
            spare,
        ).map_values(f));
    }
    while k < hi
        invariant
            snap.wf(),
            ids == snap.dense_to_id@,
            edges == snap.edges@,
            u < snap.n(),
            t < snap.n(),
            u != t,
            f == (|q: Seq<int>| ids_of(ids, q)),
            tracks(*snap, p@, path@, ids_in(*visited)),
            p@.last() == u,
            p@.len() <= snap.n(),
            spare == snap.n() - p@.len(),
            row == snap.out_row(u as int),
            lo == snap.row_ptr@[u as int],
            hi == snap.row_ptr@[u + 1],
            lo <= k <= hi <= edges.len(),
            deep(paths@) == before + extensions_over(
                edges,
                row.take(k - lo),
                p@,
                t as int,
                spare,
            ).map_values(f),
        decreases hi - k,
    {
        let v: usize = snap.col_idx[k] as usize;
        let id: NodeId = snap.dense_to_id[v];
        let ghost part = extensions_over(edges, row.take(k - lo), p@, t as int, spare);
        proof {
            assert(row.take(k - lo + 1).drop_last() =~= row.take(k - lo));
            assert(row.take(k - lo + 1).last() == row[k - lo]);
            assert(row[k - lo].dst == v);
        }
        if !contains_id(visited, id) {
            let ghost path0 = path@;
            let ghost visited0 = ids_in(*visited);
            proof {
                lemma_tracks_push(*snap, p@, path@, visited0, v as int);
            }
            let new: bool = insert_id(visited, id);
            path.push(id);
            let ghost q = p@.push(v as int);
            find_paths(snap, v, t, visited, path, paths, Ghost(q));
            let popped = path.pop();
            let ghost after = ids_in(*visited);
            remove_id(visited, id);
            proof {
                lemma_tracks_pop(*snap, p@, path0, visited0, after, v as int);
                assert(ids_of(ids, q).drop_last() =~= path0);
                let more = extensions(edges, q, t as int, (spare - 1) as nat);
                assert(deep(paths@) =~= before + (part + more).map_values(f));
            }
        } else {
            proof {
                assert(p@.contains(v as int));
                if spare == 0 {
                    assert(part =~= Seq::empty());
                }
            }
        }
        k = k + 1;
    }
    proof {
        assert(row.take(hi - lo) =~= row);
        if spare == 0 {
            assert(extensions_over(edges, row, p@, t as int, 0) =~= Seq::empty());
        }
    }
}

/// All simple paths between `src` and `dst`.
pub fn all_paths(snap: &CsrSnapshot, src: NodeId, dst: NodeId) -> (r: Vec<Vec<NodeId>>)
    requires
        snap.wf(),
    ensures
        src == dst ==> deep(r@) == seq![seq![src]],
        src != dst ==> ({
            let ids = snap.dense_to_id@;
            if ids.contains(src) && ids.contains(dst) {
                deep(r@) == extensions(
                    snap.edges@,
                    seq![dense_of(ids, src)],
                    dense_of(ids, dst),
                    (ids.len() - 1) as nat,
                ).map_values(|q: Seq<int>| ids_of(ids, q))
            } else {
                r@.len() == 0
            }
        }),
{
    let mut paths: Vec<Vec<NodeId>> = Vec::new();
    if src == dst {
        let only: Vec<NodeId> = vec![src];
        assert(only@ =~= seq![src]);
        paths.push(only);
        assert(deep(paths@) =~= seq![seq![src]]);
        return paths;
    }
    let (s, t) = match (snap.dense(src), snap.dense(dst)) {
        (Some(s), Some(t)) => (s, t),
        _ => {
            return paths;
        },
    };
    let ghost ids = snap.dense_to_id@;
    let ghost p = seq![s as int];
    let mut visited: ahash::AHashSet<u64> = new_ids();
    let new: bool = insert_id(&mut visited, src);
    let mut path: Vec<NodeId> = vec![src];
    proof {
        lemma_index_unique(ids, s as int);
        lemma_index_unique(ids, t as int);
        lemma_start_tracks(*snap, s as int, path@, ids_in(visited));
    }
    find_paths(snap, s, t, &mut visited, &mut path, &mut paths, Ghost(p));
    proof {
        assert(deep(paths@) =~= extensions(
            snap.edges@,
            p,
            t as int,
            (ids.len() - 1) as nat,
        ).map_values(|q: Seq<int>| ids_of(ids, q)));
    }
    paths
}

proof fn lemma_start_tracks(snap: CsrSnapshot, s: int, path: Seq<NodeId>, visited: Set<u64>)
    requires
        snap.wf(),
        0 <= s < snap.n(),
        path.len() == 1,
        path[0] == snap.dense_to_id@[s],
        visited == Set::<u64>::empty().insert(snap.dense_to_id@[s]),
    ensures
        tracks(snap, seq![s], path, visited),
{
    let ids = snap.dense_to_id@;
    let p = seq![s];
    assert(path =~= ids_of(ids, p));
    assert forall|d: int| 0 <= d < snap.n() implies (visited.contains(#[trigger] ids[d])
        <==> p.contains(d)) by {
        if d == s {
            assert(p[0] == s);
        } else {
            assert(ids[d] != ids[s]);
        }
    }
}

/// The contents of a path, where there is one.
pub open spec fn deep_option(p: Option<Vec<NodeId>>) -> Option<Seq<NodeId>> {
    match p {
        None => None,
        Some(v) => Some(v@),
    }
}

/// The ids of a path, where there is one.
pub open spec fn ids_option(ids: Seq<NodeId>, p: Option<Seq<int>>) -> Option<Seq<NodeId>> {
    match p {
        None => None,
        Some(q) => Some(ids_of(ids, q)),
    }
}

/// Keeps the first longest of the best path so far and those that extend the current one.
fn find_longest(
    snap: &CsrSnapshot,
    u: usize,
    t: usize,
    visited: &mut ahash::AHashSet<u64>,
    path: &mut Vec<NodeId>,
    best: &mut Option<Vec<NodeId>>,
    p: Ghost<Seq<int>>,
    b: Ghost<Option<Seq<int>>>,
)
    requires
        snap.wf(),
        u < snap.n(),
        t < snap.n(),
        tracks(*snap, p@, old(path)@, ids_in(*old(visited))),
        p@.last() == u,
        p@.len() <= snap.n(),
        deep_option(*old(best)) == ids_option(snap.dense_to_id@, b@),
    ensures
        tracks(*snap, p@, final(path)@, ids_in(*final(visited))),
        deep_option(*final(best)) == ids_option(
            snap.dense_to_id@,
            longer(
                b@,
                extensions(snap.edges@, p@, t as int, (snap.n() - p@.len()) as nat),
            ),
        ),
    decreases snap.n() - p@.len(),
{
    let ghost ids = snap.dense_to_id@;
    let ghost edges = snap.edges@;
    let ghost spare = (snap.n() - p@.len()) as nat;
    if u == t {
        let better: bool = match best {
            None => true,
            Some(q) => path.len() > q.len(),
        };
        proof {
            let one = seq![p@];
            assert(one.drop_last() =~= Seq::empty());
            assert(one.last() == p@);
            assert(longer(b@, one.drop_last()) == b@);
        }
        if better {
            let copy: Vec<NodeId> = path.clone();
            assert(copy@ =~= path@);
            *best = Some(copy);
        }
        return;
    }
    let ghost row = snap.out_row(u as int);
    let lo: usize = snap.row_ptr[u];
    let hi: usize = snap.row_ptr[u + 1];
    let mut k: usize = lo;
    proof {
        assert(row.take(0) =~= Seq::empty());
        assert(extensions_over(edges, row.take(0), p@, t as int, spare) =~= Seq::empty());
    }
    while k < hi
        invariant
            snap.wf(),
            ids == snap.dense_to_id@,
            edges == snap.edges@,
            u < snap.n(),
            t < snap.n(),
            u != t,
            tracks(*snap, p@, path@, ids_in(*visited)),
            p@.last() == u,
            p@.len() <= snap.n(),
            spare == snap.n() - p@.len(),
            row == snap.out_row(u as int),
            lo == snap.row_ptr@[u as int],
            hi == snap.row_ptr@[u + 1],
            lo <= k <= hi <= edges.len(),
            deep_option(*best) == ids_option(
                ids,
                longer(b@, extensions_over(edges, row.take(k - lo), p@, t as int, spare)),
            ),
        decreases hi - k,
    {
        let v: usize = snap.col_idx[k] as usize;
        let id: NodeId = snap.dense_to_id[v];
        let ghost part = extensions_over(edges, row.take(k - lo), p@, t as int, spare);
        proof {
            assert(row.take(k - lo + 1).drop_last() =~= row.take(k - lo));
            assert(row.take(k - lo + 1).last() == row[k - lo]);
            assert(row[k - lo].dst == v);
        }
        if !contains_id(visited, id) {
            let ghost path0 = path@;
            let ghost visited0 = ids_in(*visited);
            proof {
                lemma_tracks_push(*snap, p@, path@, visited0, v as int);
            }
            let new: bool = insert_id(visited, id);
            path.push(id);
            let ghost q = p@.push(v as int);
            let ghost b1 = longer(b@, part);
            find_longest(snap, v, t, visited, path, best, Ghost(q), Ghost(b1));
            let popped = path.pop();
            let ghost after = ids_in(*visited);
            remove_id(visited, id);
            proof {
                lemma_tracks_pop(*snap, p@, path0, visited0, after, v as int);
                assert(ids_of(ids, q).drop_last() =~= path0);
                let more = extensions(edges, q, t as int, (spare - 1) as nat);
                lemma_longer_add(b@, part, more);
            }
        } else {
            proof {
                assert(p@.contains(v as int));
                if spare == 0 {
                    assert(part =~= Seq::empty());
                }
            }
        }
        k = k + 1;
    }
    proof {
        assert(row.take(hi - lo) =~= row);
        if spare == 0 {
            assert(extensions_over(edges, row, p@, t as int, 0) =~= Seq::empty());
        }
    }
}

/// The longest simple path between `src` and `dst`, the first one found of those
/// that are as long.
pub fn longest_path(snap: &CsrSnapshot, src: NodeId, dst: NodeId) -> (r: Option<Vec<NodeId>>)
    requires
        snap.wf(),
    ensures
        src == dst ==> deep_option(r) == Some(seq![src]),
        src != dst ==> ({
            let ids = snap.dense_to_id@;
            if ids.contains(src) && ids.contains(dst) {
                deep_option(r) == ids_option(
                    ids,
                    longer(
                        None,
                        extensions(
                            snap.edges@,
                            seq![dense_of(ids, src)],
                            dense_of(ids, dst),
                            (ids.len() - 1) as nat,
                        ),
                    ),
                )
            } else {
                r is None
            }
        }),
{
    if src == dst {
        let only: Vec<NodeId> = vec![src];
        assert(only@ =~= seq![src]);
        return Some(only);
    }
    let (s, t) = match (snap.dense(src), snap.dense(dst)) {
        (Some(s), Some(t)) => (s, t),
        _ => {
            return None;
        },
    };
    let ghost ids = snap.dense_to_id@;
    let ghost p = seq![s as int];
    let mut visited: ahash::AHashSet<u64> = new_ids();
    let new: bool = insert_id(&mut visited, src);
    let mut path: Vec<NodeId> = vec![src];
    proof {
        lemma_index_unique(ids, s as int);
        lemma_index_unique(ids, t as int);
        lemma_start_tracks(*snap, s as int, path@, ids_in(visited));
    }
    let mut best: Option<Vec<NodeId>> = None;
    find_longest(snap, s, t, &mut visited, &mut path, &mut best, Ghost(p), Ghost(None));
    best
}

} // verus!
