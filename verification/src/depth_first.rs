//! Depth-first search: bounded discovery and cycle detection.

use vstd::prelude::*;

use crate::csr::{leaving, lemma_index_unique, CsrSnapshot, Edge};
use crate::paths::{as_nodes, ids_of, is_walk};
use crate::schema::NodeId;
use crate::sets::{depths_in, get_depth, insert_depth, new_depths};
use crate::sums::{bit, count, lemma_sum_update};
use crate::traversal::{arc, dense_of, grow, lemma_within_mono, lemma_within_step, within};

verus! {

/// What a bounded depth-first search has found: the least depth at which it
/// reached each node, and the nodes in order of discovery.
pub struct Visit {
    pub best: Map<int, nat>,
    pub order: Seq<int>,
}

/// Reaches `u` at `depth`, with `room` more levels to go. A node is expanded
/// again whenever it is reached at a lesser depth than before.
pub open spec fn visit(edges: Seq<Edge>, st: Visit, u: int, depth: nat, room: nat) -> Visit
    decreases room, 1int, 0int,
{
    if st.best.dom().contains(u) && st.best[u] <= depth {
        st
    } else {
        let found = Visit {
            best: st.best.insert(u, depth),
            order: if st.best.dom().contains(u) {
                st.order
            } else {
                st.order.push(u)
            },
        };
        if room == 0 {
            found
        } else {
            visit_row(edges, edges.filter(leaving(u)), found, depth, room)
        }
    }
}

/// Reaches the targets of `row` from a node at `depth`.
pub open spec fn visit_row(
    edges: Seq<Edge>,
    row: Seq<Edge>,
    st: Visit,
    depth: nat,
    room: nat,
) -> Visit
    decreases room, 0int, row.len(),
{
    if row.len() == 0 || room == 0 {
        st
    } else {
        visit(
            edges,
            visit_row(edges, row.drop_last(), st, depth, room),
            row.last().dst,
            depth + 1,
            (room - 1) as nat,
        )
    }
}

/// Nothing found.
pub open spec fn no_visit() -> Visit {
    Visit { best: Map::empty(), order: Seq::empty() }
}

/// The order lists the reached nodes once each, and each was reached within its depth.
spec fn sound(edges: Seq<Edge>, s: int, limit: nat, st: Visit) -> bool {
    &&& st.order.no_duplicates()
    &&& forall|v: int| #[trigger] st.order.contains(v) <==> st.best.dom().contains(v)
    &&& forall|v: int|
        #[trigger] st.best.dom().contains(v) ==> st.best[v] <= limit && within(
            edges,
            set![s],
            st.best[v],
        ).contains(v)
}

/// The targets of `v` are reached, at most one level below it.
spec fn settled(edges: Seq<Edge>, st: Visit, v: int) -> bool {
    forall|w: int|
        #[trigger] arc(edges, v, w) ==> st.best.dom().contains(w) && st.best[w] <= st.best[v] + 1
}

/// Every reached node above the limit that is not pending is settled.
spec fn settled_but(edges: Seq<Edge>, limit: nat, st: Visit, pending: Set<int>) -> bool {
    forall|v: int|
        st.best.dom().contains(v) && st.best[v] < limit && !pending.contains(v)
            ==> #[trigger] settled(edges, st, v)
}

/// `after` has at least the nodes of `before`, at no greater depths; what was at
/// `depth` or above stays as it was.
spec fn refines(before: Visit, after: Visit, depth: nat) -> bool {
    &&& before.order.is_prefix_of(after.order)
    &&& forall|v: int|
        #[trigger] before.best.dom().contains(v) ==> after.best.dom().contains(v) && after.best[v]
            <= before.best[v]
    &&& forall|v: int|
        #[trigger] before.best.dom().contains(v) && before.best[v] <= depth ==> after.best[v]
            == before.best[v]
}

proof fn lemma_visit(
    edges: Seq<Edge>,
    s: int,
    limit: nat,
    st: Visit,
    u: int,
    depth: nat,
    room: nat,
    pending: Set<int>,
)
    requires
        depth + room == limit,
        sound(edges, s, limit, st),
        settled_but(edges, limit, st, pending),
        within(edges, set![s], depth).contains(u),
    ensures
        ({
            let after = visit(edges, st, u, depth, room);
            &&& sound(edges, s, limit, after)
            &&& settled_but(edges, limit, after, pending)
            &&& refines(st, after, depth)
            &&& after.best.dom().contains(u) && after.best[u] <= depth
        }),
    decreases room, 1int, 0int,
{
    let after = visit(edges, st, u, depth, room);
    if st.best.dom().contains(u) && st.best[u] <= depth {
        assert(st.order =~= st.order.subrange(0, st.order.len() as int));
    } else {
        let found = Visit {
            best: st.best.insert(u, depth),
            order: if st.best.dom().contains(u) {
                st.order
            } else {
                st.order.push(u)
            },
        };
        assert(sound(edges, s, limit, found)) by {
            assert forall|v: int| #[trigger] found.order.contains(v)
                <==> found.best.dom().contains(v) by {
                if v == u {
                    if st.best.dom().contains(u) {
                        assert(st.order.contains(u));
                    } else {
                        assert(found.order[st.order.len() as int] == u);
                    }
                } else {
                    assert(st.order.contains(v) <==> st.best.dom().contains(v));
                    if st.order.contains(v) {
                        let i = choose|i: int| 0 <= i < st.order.len() && st.order[i] == v;
                        assert(found.order[i] == v);
                    }
                    if found.order.contains(v) {
                        let i = choose|i: int| 0 <= i < found.order.len() && found.order[i] == v;
                        assert(st.order[i] == v);
                    }
                }
            }
            assert(found.order.no_duplicates()) by {
                if !st.best.dom().contains(u) {
                    assert(!st.order.contains(u));
                }
            }
        }
        assert(st.order.is_prefix_of(found.order)) by {
            assert(st.order =~= found.order.subrange(0, st.order.len() as int));
        }
        let wider = pending.insert(u);
        assert(settled_but(edges, limit, found, wider)) by {
            assert forall|v: int|
                found.best.dom().contains(v) && found.best[v] < limit && !wider.contains(
                    v,
                ) implies #[trigger] settled(edges, found, v) by {
                assert(settled(edges, st, v));
            }
        }
        if room == 0 {
            assert forall|v: int|
                found.best.dom().contains(v) && found.best[v] < limit && !pending.contains(
                    v,
                ) implies #[trigger] settled(edges, found, v) by {
                assert(!wider.contains(v));
            }
        } else {
            let row = edges.filter(leaving(u));
            assert forall|k: int| 0 <= k < row.len() implies within(
                edges,
                set![s],
                depth + 1,
            ).contains((#[trigger] row[k]).dst) by {
                edges.lemma_filter_pred(leaving(u), k);
                assert(row.contains(row[k]));
                edges.lemma_filter_contains_rev(leaving(u), row[k]);
                let j = choose|j: int| 0 <= j < edges.len() && edges[j] == row[k];
                assert(edges[j].src == u && edges[j].dst == row[k].dst);
                assert(arc(edges, u, row[k].dst));
                lemma_within_step(edges, set![s], u, row[k].dst, depth);
            }
            lemma_visit_row(edges, s, limit, row, found, depth, room, wider);
            assert(found.best.dom().contains(u));
            assert(after.best[u] == depth);
            assert(settled(edges, after, u)) by {
                assert forall|w: int| #[trigger] arc(edges, u, w) implies after.best.dom().contains(
                    w,
                ) && after.best[w] <= after.best[u] + 1 by {
                    let j = choose|j: int|
                        0 <= j < edges.len() && (#[trigger] edges[j]).src == u && edges[j].dst == w;
                    edges.lemma_filter_contains(leaving(u), j);
                    let k = choose|k: int| 0 <= k < row.len() && row[k] == edges[j];
                    assert(row[k].dst == w);
                }
            }
            assert forall|v: int|
                after.best.dom().contains(v) && after.best[v] < limit && !pending.contains(
                    v,
                ) implies #[trigger] settled(edges, after, v) by {
                if v != u {
                    assert(!wider.contains(v));
                }
            }
            assert(refines(st, after, depth)) by {
                assert(st.order =~= after.order.subrange(0, st.order.len() as int)) by {
                    assert(found.order == after.order.subrange(0, found.order.len() as int));
                    assert(st.order == found.order.subrange(0, st.order.len() as int));
                    assert forall|i: int| 0 <= i < st.order.len() implies st.order[i]
                        == after.order[i] by {
                        assert(found.order[i] == after.order.subrange(
                            0,
                            found.order.len() as int,
                        )[i]);
                        assert(st.order[i] == found.order.subrange(
                            0,
                            st.order.len() as int,
                        )[i]);
                    }
                }
                assert forall|v: int| #[trigger] st.best.dom().contains(v) implies
                    after.best.dom().contains(v) && after.best[v] <= st.best[v] by {
                    assert(found.best.dom().contains(v));
                }
                assert forall|v: int| #[trigger] st.best.dom().contains(v) && st.best[v]
                    <= depth implies after.best[v] == st.best[v] by {
                    assert(found.best.dom().contains(v));
                }
            }
        }
    }
}

proof fn lemma_visit_row(
    edges: Seq<Edge>,
    s: int,
    limit: nat,
    row: Seq<Edge>,
    st: Visit,
    depth: nat,
    room: nat,
    pending: Set<int>,
)
    requires
        depth + room == limit,
        room > 0,
        sound(edges, s, limit, st),
        settled_but(edges, limit, st, pending),
        forall|k: int|
            0 <= k < row.len() ==> within(edges, set![s], depth + 1).contains(
                (#[trigger] row[k]).dst,
            ),
    ensures
        ({
            let after = visit_row(edges, row, st, depth, room);
            &&& sound(edges, s, limit, after)
            &&& settled_but(edges, limit, after, pending)
            &&& refines(st, after, depth)
            &&& forall|k: int|
                0 <= k < row.len() ==> after.best.dom().contains((#[trigger] row[k]).dst)
                    && after.best[row[k].dst] <= depth + 1
        }),
    decreases room, 0int, row.len(),
{
    let after = visit_row(edges, row, st, depth, room);
    if row.len() == 0 {
        assert(st.order =~= st.order.subrange(0, st.order.len() as int));
    } else {
        let row0 = row.drop_last();
        let mid = visit_row(edges, row0, st, depth, room);
        assert forall|k: int| 0 <= k < row0.len() implies within(
            edges,
            set![s],
            depth + 1,
        ).contains((#[trigger] row0[k]).dst) by {
            assert(row0[k] == row[k]);
        }
        lemma_visit_row(edges, s, limit, row0, st, depth, room, pending);
        assert(row.last() == row[row.len() - 1]);
        lemma_visit(
            edges,
            s,
            limit,
            mid,
            row.last().dst,
            depth + 1,
            (room - 1) as nat,
            pending,
        );
        assert forall|k: int| 0 <= k < row.len() implies after.best.dom().contains(
            (#[trigger] row[k]).dst,
        ) && after.best[row[k].dst] <= depth + 1 by {
            if k < row0.len() {
                assert(row0[k] == row[k]);
                assert(mid.best.dom().contains(row0[k].dst));
            }
        }
        assert(refines(st, after, depth)) by {
            assert(st.order == mid.order.subrange(0, st.order.len() as int));
            assert(mid.order == after.order.subrange(0, mid.order.len() as int));
            assert(st.order =~= after.order.subrange(0, st.order.len() as int)) by {
                assert forall|i: int| 0 <= i < st.order.len() implies st.order[i]
                    == after.order[i] by {
                    assert(st.order[i] == mid.order.subrange(0, st.order.len() as int)[i]);
                    assert(mid.order[i] == after.order.subrange(0, mid.order.len() as int)[i]);
                }
            }
            assert forall|v: int| #[trigger] st.best.dom().contains(v) implies
                after.best.dom().contains(v) && after.best[v] <= st.best[v] by {
                assert(mid.best.dom().contains(v));
            }
            assert forall|v: int| #[trigger] st.best.dom().contains(v) && st.best[v]
                <= depth implies after.best[v] == st.best[v] by {
                assert(mid.best.dom().contains(v));
            }
        }
    }
}

/// A search from `s` finds exactly the nodes within `hops` steps, each once, and
/// `s` first.
pub proof fn lemma_dfs_reach(edges: Seq<Edge>, s: int, hops: nat)
    ensures
        ({
            let order = visit(edges, no_visit(), s, 0, hops).order;
            &&& order.no_duplicates()
            &&& order.len() > 0 && order[0] == s
            &&& forall|v: int|
                #[trigger] order.contains(v) <==> within(edges, set![s], hops).contains(v)
        }),
{
    let st = no_visit();
    let first = Visit { best: st.best.insert(s, 0), order: st.order.push(s) };
    let after = visit(edges, st, s, 0, hops);
    assert(st.order.no_duplicates());
    lemma_visit(edges, s, hops, st, s, 0, hops, Set::empty());
    assert forall|v: int| #[trigger] after.order.contains(v) <==> within(
        edges,
        set![s],
        hops,
    ).contains(v) by {
        if after.order.contains(v) {
            assert(after.best.dom().contains(v));
            lemma_within_mono(edges, set![s], after.best[v], hops);
        }
        if within(edges, set![s], hops).contains(v) {
            lemma_dfs_complete(edges, s, hops, after, v, hops);
        }
    }
    lemma_first_found(edges, s, hops);
}

proof fn lemma_dfs_complete(edges: Seq<Edge>, s: int, limit: nat, st: Visit, v: int, k: nat)
    requires
        settled_but(edges, limit, st, Set::empty()),
        st.best.dom().contains(s) && st.best[s] == 0,
        k <= limit,
        within(edges, set![s], k).contains(v),
    ensures
        st.best.dom().contains(v),
        st.best[v] <= k,
    decreases k,
{
    if k > 0 {
        let prev = within(edges, set![s], (k - 1) as nat);
        if prev.contains(v) {
            lemma_dfs_complete(edges, s, limit, st, v, (k - 1) as nat);
        } else {
            assert(grow(edges, prev).contains(v));
            let u = choose|u: int| prev.contains(u) && #[trigger] arc(edges, u, v);
            lemma_dfs_complete(edges, s, limit, st, u, (k - 1) as nat);
            assert(settled(edges, st, u));
        }
    }
}

proof fn lemma_first_found(edges: Seq<Edge>, s: int, hops: nat)
    ensures
        visit(edges, no_visit(), s, 0, hops).order.len() > 0,
        visit(edges, no_visit(), s, 0, hops).order[0] == s,
{
    let st = no_visit();
    let first = Visit { best: st.best.insert(s, 0), order: st.order.push(s) };
    if hops > 0 {
        lemma_row_keeps_order(edges, edges.filter(leaving(s)), first, 0, hops);
        let after = visit_row(edges, edges.filter(leaving(s)), first, 0, hops);
        assert(first.order == after.order.subrange(0, first.order.len() as int));
        assert(first.order[0] == after.order.subrange(0, first.order.len() as int)[0]);
    }
}

proof fn lemma_row_keeps_order(edges: Seq<Edge>, row: Seq<Edge>, st: Visit, depth: nat, room: nat)
    ensures
        st.order.is_prefix_of(visit_row(edges, row, st, depth, room).order),
    decreases room, 0int, row.len(),
{
    let after = visit_row(edges, row, st, depth, room);
    if row.len() == 0 || room == 0 {
        assert(st.order =~= st.order.subrange(0, st.order.len() as int));
    } else {
        let mid = visit_row(edges, row.drop_last(), st, depth, room);
        lemma_row_keeps_order(edges, row.drop_last(), st, depth, room);
        lemma_visit_keeps_order(edges, mid, row.last().dst, depth + 1, (room - 1) as nat);
        assert(st.order == mid.order.subrange(0, st.order.len() as int));
        assert(mid.order == after.order.subrange(0, mid.order.len() as int));
        assert forall|i: int| 0 <= i < st.order.len() implies st.order[i] == after.order[i] by {
            assert(st.order[i] == mid.order.subrange(0, st.order.len() as int)[i]);
            assert(mid.order[i] == after.order.subrange(0, mid.order.len() as int)[i]);
        }
        assert(st.order =~= after.order.subrange(0, st.order.len() as int));
    }
}

proof fn lemma_visit_keeps_order(edges: Seq<Edge>, st: Visit, u: int, depth: nat, room: nat)
    ensures
        st.order.is_prefix_of(visit(edges, st, u, depth, room).order),
    decreases room, 1int, 0int,
{
    let after = visit(edges, st, u, depth, room);
    if st.best.dom().contains(u) && st.best[u] <= depth {
        assert(st.order =~= st.order.subrange(0, st.order.len() as int));
    } else {
        let found = Visit {
            best: st.best.insert(u, depth),
            order: if st.best.dom().contains(u) {
                st.order
            } else {
                st.order.push(u)
            },
        };
        assert(st.order =~= found.order.subrange(0, st.order.len() as int));
        if room > 0 {
            lemma_row_keeps_order(edges, edges.filter(leaving(u)), found, depth, room);
            assert(found.order == after.order.subrange(0, found.order.len() as int));
            assert forall|i: int| 0 <= i < st.order.len() implies st.order[i]
                == after.order[i] by {
                assert(found.order[i] == after.order.subrange(0, found.order.len() as int)[i]);
            }
            assert(st.order =~= after.order.subrange(0, st.order.len() as int));
        }
    }
}

/// The map and the list hold, by node id, what the search has found.
pub open spec fn holds(
    snap: CsrSnapshot,
    best: Map<u64, u8>,
    order: Seq<NodeId>,
    st: Visit,
) -> bool {
    let ids = snap.dense_to_id@;
    &&& order == ids_of(ids, st.order)
    &&& forall|d: int|
        0 <= d < snap.n() ==> (best.dom().contains(#[trigger] ids[d]) <==> st.best.dom().contains(
            d,
        ))
    &&& forall|d: int|
        0 <= d < snap.n() && st.best.dom().contains(d) ==> best[#[trigger] ids[d]] == st.best[d]
}

fn dfs_recurse(
    snap: &CsrSnapshot,
    u: usize,
    depth: u8,
    max_depth: u8,
    best: &mut ahash::AHashMap<u64, u8>,
    order: &mut Vec<NodeId>,
    st: Ghost<Visit>,
)
    requires
        snap.wf(),
        u < snap.n(),
        depth <= max_depth,
        holds(*snap, depths_in(*old(best)), old(order)@, st@),
    ensures
        holds(
            *snap,
            depths_in(*final(best)),
            final(order)@,
            visit(snap.edges@, st@, u as int, depth as nat, (max_depth - depth) as nat),
        ),
    decreases max_depth - depth,
{
    let ghost ids = snap.dense_to_id@;
    let ghost edges = snap.edges@;
    let id: NodeId = snap.dense_to_id[u];
    let known: Option<u8> = get_depth(best, id);
    match known {
        Some(d) => {
            if d <= depth {
                return;
            }
        },
        None => {
            order.push(id);
        },
    }
    insert_depth(best, id, depth);
    let ghost found = Visit {
        best: st@.best.insert(u as int, depth as nat),
        order: if st@.best.dom().contains(u as int) {
            st@.order
        } else {
            st@.order.push(u as int)
        },
    };
    proof {
        assert(order@ =~= ids_of(ids, found.order));
        assert forall|d: int| 0 <= d < snap.n() implies (depths_in(*best).dom().contains(
            #[trigger] ids[d],
        ) <==> found.best.dom().contains(d)) by {
            if d != u {
                assert(ids[d] != ids[u as int]);
            }
        }
        assert forall|d: int|
            0 <= d < snap.n() && found.best.dom().contains(d) implies depths_in(
            *best,
        )[#[trigger] ids[d]] == found.best[d] by {
            if d != u {
                assert(ids[d] != ids[u as int]);
            }
        }
    }
    if depth < max_depth {
        let ghost row = snap.out_row(u as int);
        let ghost room = (max_depth - depth) as nat;
        let lo: usize = snap.row_ptr[u];
        let hi: usize = snap.row_ptr[u + 1];
        let mut k: usize = lo;
        assert(row.take(0) =~= Seq::empty());
        while k < hi
            invariant
                snap.wf(),
                edges == snap.edges@,
                u < snap.n(),
                depth < max_depth,
                room == max_depth - depth,
                row == snap.out_row(u as int),
                lo == snap.row_ptr@[u as int],
                hi == snap.row_ptr@[u + 1],
                lo <= k <= hi <= edges.len(),
                holds(
                    *snap,
                    depths_in(*best),
                    order@,
                    visit_row(edges, row.take(k - lo), found, depth as nat, room),
                ),
            decreases hi - k,
        {
            let ghost mid = visit_row(edges, row.take(k - lo), found, depth as nat, room);
            proof {
                assert(row.take(k - lo + 1).drop_last() =~= row.take(k - lo));
                assert(row.take(k - lo + 1).last() == row[k - lo]);
            }
            let v: usize = snap.col_idx[k] as usize;
            dfs_recurse(snap, v, depth + 1, max_depth, best, order, Ghost(mid));
            k = k + 1;
        }
        assert(row.take(hi - lo) =~= row);
    }
}

/// Depth-first search outward from `start`, up to `hops` levels deep: every node
/// within `hops` steps, in order of discovery. A start that is not in the graph
/// is all there is to find.
pub fn dfs(snap: &CsrSnapshot, start: NodeId, hops: u8) -> (out: Vec<NodeId>)
    requires
        snap.wf(),
    ensures
        !snap.dense_to_id@.contains(start) ==> out@ == seq![start],
        snap.dense_to_id@.contains(start) ==> out@ == ids_of(
            snap.dense_to_id@,
            visit(
                snap.edges@,
                no_visit(),
                dense_of(snap.dense_to_id@, start),
                0,
                hops as nat,
            ).order,
        ),
{
    let mut order: Vec<NodeId> = Vec::new();
    match snap.dense(start) {
        None => {
            order.push(start);
            assert(order@ =~= seq![start]);
        },
        Some(s) => {
            proof {
                lemma_index_unique(snap.dense_to_id@, s as int);
            }
            let mut best: ahash::AHashMap<u64, u8> = new_depths();
            assert(order@ =~= ids_of(snap.dense_to_id@, no_visit().order));
            dfs_recurse(snap, s, 0, hops, &mut best, &mut order, Ghost(no_visit()));
        },
    }
    order
}

/// A walk that comes back to where it started.
pub open spec fn is_cycle(edges: Seq<Edge>, p: Seq<int>) -> bool {
    is_walk(edges, p) && p.len() >= 2 && p[0] == p.last()
}

/// Whether some walk comes back to where it started.
pub open spec fn has_cycle(edges: Seq<Edge>) -> bool {
    exists|p: Seq<int>| is_cycle(edges, p)
}

/// Not seen yet.
pub const WHITE: u8 = 0;

/// On the current path.
pub const GRAY: u8 = 1;

/// Done: everything it leads to is done as well.
pub const BLACK: u8 = 2;

/// The colors of a depth-first search: the gray nodes are those of the current
/// path, and every edge out of a done node leads to one that was done before it.
pub open spec fn colored(
    edges: Seq<Edge>,
    color: Seq<u8>,
    path: Seq<int>,
    done: Seq<int>,
) -> bool {
    &&& path.len() == 0 || is_walk(edges, path)
    &&& forall|v: int| 0 <= v < color.len() ==> color[v] <= BLACK
    &&& forall|v: int|
        0 <= v < color.len() ==> (#[trigger] color[v] == GRAY <==> path.contains(v))
    &&& forall|v: int|
        0 <= v < color.len() ==> (#[trigger] color[v] == BLACK <==> done.contains(v))
    &&& forall|i: int, w: int|
        0 <= i < done.len() && #[trigger] arc(edges, done[i], w) ==> done.take(i).contains(w)
}

/// The predicate that holds of the color of a node not seen yet.
pub open spec fn unseen() -> spec_fn(u8) -> bool {
    |c: u8| c == WHITE
}

/// A node that was not seen comes to the end of the path.
proof fn lemma_turns_gray(
    edges: Seq<Edge>,
    color: Seq<u8>,
    path: Seq<int>,
    done: Seq<int>,
    v: int,
)
    requires
        colored(edges, color, path, done),
        path.no_duplicates(),
        0 <= v < color.len(),
        color[v] == WHITE,
        path.len() > 0 ==> arc(edges, path.last(), v),
    ensures
        colored(edges, color.update(v, GRAY), path.push(v), done),
        path.push(v).no_duplicates(),
{
    let now = color.update(v, GRAY);
    let here = path.push(v);
    assert(!path.contains(v));
    assert(is_walk(edges, here)) by {
        assert forall|i: int| 0 <= i < here.len() - 1 implies arc(
            edges,
            #[trigger] here[i],
            here[i + 1],
        ) by {
            if i < path.len() - 1 {
                assert(arc(edges, path[i], path[i + 1]));
            }
        }
    }
    assert forall|x: int| 0 <= x < now.len() implies (#[trigger] now[x] == GRAY <==> here.contains(
        x,
    )) by {
        assert(color[x] == GRAY <==> path.contains(x));
        if x == v {
            assert(here[path.len() as int] == x);
        } else {
            if path.contains(x) {
                let i = path.index_of(x);
                assert(here[i] == x);
            }
            if here.contains(x) {
                let i = here.index_of(x);
                assert(path[i] == x);
            }
        }
    }
    assert forall|x: int| 0 <= x < now.len() implies (#[trigger] now[x] == BLACK <==> done.contains(
        x,
    )) by {
        assert(color[x] == BLACK <==> done.contains(x));
    }
    assert forall|i: int, j: int| 0 <= i < j < here.len() implies here[i] != here[j] by {
        if j == path.len() {
            assert(path.contains(path[i]));
        }
    }
}

/// The end of the path is done where everything it leads to is.
proof fn lemma_turns_black(
    edges: Seq<Edge>,
    color: Seq<u8>,
    path: Seq<int>,
    done: Seq<int>,
)
    requires
        colored(edges, color, path, done),
        path.no_duplicates(),
        path.len() > 0,
        0 <= path.last() < color.len(),
        forall|x: int| #[trigger] arc(edges, path.last(), x) ==> done.contains(x),
    ensures
        colored(edges, color.update(path.last(), BLACK), path.drop_last(), done.push(path.last())),
        path.drop_last().no_duplicates(),
{
    let u = path.last();
    let now = color.update(u, BLACK);
    let rest = path.drop_last();
    let all = done.push(u);
    assert(path[path.len() - 1] == u);
    assert(rest.len() == 0 || is_walk(edges, rest)) by {
        assert forall|i: int| 0 <= i < rest.len() - 1 implies arc(
            edges,
            #[trigger] rest[i],
            rest[i + 1],
        ) by {
            assert(arc(edges, path[i], path[i + 1]));
        }
    }
    assert(!rest.contains(u)) by {
        if rest.contains(u) {
            let i = rest.index_of(u);
            assert(path[i] == u);
        }
    }
    assert forall|x: int| 0 <= x < now.len() implies (#[trigger] now[x] == GRAY <==> rest.contains(
        x,
    )) by {
        assert(color[x] == GRAY <==> path.contains(x));
        if rest.contains(x) {
            let i = rest.index_of(x);
            assert(path[i] == x);
        }
        if path.contains(x) && x != u {
            let i = path.index_of(x);
            assert(rest[i] == x);
        }
    }
    assert forall|x: int| 0 <= x < now.len() implies (#[trigger] now[x] == BLACK <==> all.contains(
        x,
    )) by {
        assert(color[x] == BLACK <==> done.contains(x));
        if x == u {
            assert(all[done.len() as int] == x);
        } else {
            if done.contains(x) {
                let i = done.index_of(x);
                assert(all[i] == x);
            }
            if all.contains(x) {
                let i = all.index_of(x);
                assert(done[i] == x);
            }
        }
    }
    assert forall|i: int, x: int| 0 <= i < all.len() && #[trigger] arc(edges, all[i], x) implies
        all.take(i).contains(x) by {
        if i < done.len() {
            assert(done[i] == all[i]);
            assert(all.take(i) =~= done.take(i));
        } else {
            assert(all.take(i) =~= done);
        }
    }
}

/// An edge from the end of the path back onto it closes a cycle.
proof fn lemma_closes(edges: Seq<Edge>, path: Seq<int>, v: int)
    requires
        is_walk(edges, path),
        arc(edges, path.last(), v),
        path.contains(v),
    ensures
        has_cycle(edges),
{
    let i = path.index_of(v);
    let p = path.skip(i).push(v);
    assert(is_walk(edges, p)) by {
        assert forall|j: int| 0 <= j < p.len() - 1 implies arc(
            edges,
            #[trigger] p[j],
            p[j + 1],
        ) by {
            if j < p.len() - 2 {
                assert(arc(edges, path[i + j], path[i + j + 1]));
            }
        }
    }
    assert(is_cycle(edges, p));
}

/// Looks for a cycle among what can be reached from `u`. The nodes of the current path
/// are kept in a list, each with the next slot of its row, so a long path takes no
/// more of the call stack than a short one.
fn explore(
    snap: &CsrSnapshot,
    u: usize,
    color: &mut Vec<u8>,
    done: &mut Ghost<Seq<int>>,
) -> (found: bool)
    requires
        snap.wf(),
        u < snap.n(),
        old(color)@.len() == snap.n(),
        old(color)@[u as int] == WHITE,
        colored(snap.edges@, old(color)@, Seq::empty(), old(done)@),
    ensures
        found ==> has_cycle(snap.edges@),
        !found ==> {
            &&& final(color)@.len() == snap.n()
            &&& colored(snap.edges@, final(color)@, Seq::empty(), final(done)@)
            &&& final(color)@[u as int] == BLACK
            &&& forall|v: int|
                0 <= v < snap.n() && #[trigger] old(color)@[v] != WHITE ==> final(color)@[v]
                    == old(color)@[v]
        },
{
    let ghost edges = snap.edges@;
    let ghost color0 = color@;
    let ghost w = |c: u8| bit(unseen()(c));
    let mut path: Vec<usize> = Vec::new();
    let mut cursor: Vec<usize> = Vec::new();
    proof {
        assert(as_nodes(path@) =~= Seq::empty());
        lemma_turns_gray(edges, color@, Seq::empty(), done@, u as int);
        assert(as_nodes(path@.push(u)) =~= Seq::empty().push(u as int));
    }
    path.push(u);
    cursor.push(snap.row_ptr[u]);
    color.set(u, GRAY);
    while path.len() > 0
        invariant
            snap.wf(),
            edges == snap.edges@,
            u < snap.n(),
            w == (|c: u8| bit(unseen()(c))),
            color0.len() == snap.n(),
            color@.len() == snap.n(),
            color@[u as int] != WHITE,
            path@.len() == cursor@.len(),
            colored(edges, color@, as_nodes(path@), done@),
            as_nodes(path@).no_duplicates(),
            forall|i: int| 0 <= i < path@.len() ==> (#[trigger] path@[i]) < snap.n(),
            forall|i: int|
                0 <= i < path@.len() ==> snap.row_ptr@[path@[i] as int] <= (#[trigger] cursor@[i])
                    <= snap.row_ptr@[path@[i] + 1],
            forall|i: int, q: int|
                #![trigger cursor@[i], snap.col_idx@[q]]
                0 <= i < path@.len() && snap.row_ptr@[path@[i] as int] <= q < cursor@[i]
                    ==> color@[snap.col_idx@[q] as int] == BLACK,
            forall|v: int|
                0 <= v < snap.n() && #[trigger] color0[v] != WHITE ==> color@[v] == color0[v]
                    && color@[v] != GRAY,
        decreases
                count(color@, unseen()),
                path@.len(),
                if path@.len() > 0 {
                    snap.row_ptr@[path@.last() + 1] - cursor@.last()
                } else {
                    0
                },
    {
        let top: usize = path.len() - 1;
        let x: usize = path[top];
        let k: usize = cursor[top];
        let ghost nodes = as_nodes(path@);
        let ghost color1 = color@;
        proof {
            assert(nodes.last() == x);
            assert(snap.row_ptr@[x + 1] <= snap.edges@.len());
        }
        if k < snap.row_ptr[x + 1] {
            let v: usize = snap.col_idx[k] as usize;
            proof {
                snap.lemma_slot_is_arc(x as int, k as int);
            }
            if color[v] == GRAY {
                proof {
                    assert(nodes.contains(v as int));
                    lemma_closes(edges, nodes, v as int);
                }
                return true;
            }
            if color[v] == WHITE {
                proof {
                    lemma_turns_gray(edges, color@, nodes, done@, v as int);
                    lemma_sum_update(color@, v as int, GRAY, w);
                    assert(as_nodes(path@.push(v)) =~= nodes.push(v as int));
                }
                color.set(v, GRAY);
                path.push(v);
                cursor.push(snap.row_ptr[v]);
            } else {
                cursor.set(top, k + 1);
            }
        } else {
            proof {
                assert forall|y: int| #[trigger] arc(edges, nodes.last(), y) implies done@.contains(
                    y,
                ) by {
                    let q = snap.lemma_arc_has_slot(x as int, y);
                    assert(cursor@[top as int] == k);
                    assert(color@[snap.col_idx@[q] as int] == BLACK);
                }
                lemma_turns_black(edges, color@, nodes, done@);
                lemma_sum_update(color@, x as int, BLACK, w);
                assert(color@[x as int] == GRAY) by {
                    assert(nodes[top as int] == x as int);
                    assert(nodes.contains(x as int));
                }
                assert(as_nodes(path@.drop_last()) =~= nodes.drop_last());
            }
            color.set(x, BLACK);
            path.pop();
            cursor.pop();
            *done = Ghost(done@.push(x as int));
        }
    }
    proof {
        assert(as_nodes(path@) =~= Seq::empty());
        assert(color@[u as int] != GRAY) by {
            assert(!as_nodes(path@).contains(u as int));
        }
    }
    false
}

/// When every node is done there is no cycle: a walk only goes back in the order.
proof fn lemma_done_acyclic(edges: Seq<Edge>, done: Seq<int>, p: Seq<int>, i: int) -> (k: int)
    requires
        forall|i: int, w: int|
            0 <= i < done.len() && #[trigger] arc(edges, done[i], w) ==> done.take(i).contains(w),
        is_walk(edges, p),
        0 <= i < done.len(),
        done[i] == p[0],
    ensures
        0 <= k <= i - (p.len() - 1),
        done[k] == p.last(),
    decreases p.len(),
{
    if p.len() == 1 {
        i
    } else {
        assert(arc(edges, p[0int], p[0int + 1]));
        assert(done.take(i).contains(p[1]));
        let j = choose|j: int| 0 <= j < done.take(i).len() && done.take(i)[j] == p[1];
        let q = p.skip(1);
        assert(is_walk(edges, q)) by {
            assert forall|x: int| 0 <= x < q.len() - 1 implies arc(edges, #[trigger] q[x], q[x
                + 1]) by {
                assert(arc(edges, p[x + 1], p[x + 1 + 1]));
            }
        }
        lemma_done_acyclic(edges, done, q, j)
    }
}

/// Whether the graph has a directed cycle.
pub fn detect_cycle(snap: &CsrSnapshot) -> (found: bool)
    requires
        snap.wf(),
    ensures
        found == has_cycle(snap.edges@),
{
    let ghost edges = snap.edges@;
    let n: usize = snap.dense_to_id.len();
    let mut color: Vec<u8> = vec![WHITE; n];
    let mut done: Ghost<Seq<int>> = Ghost(Seq::empty());
    let mut u: usize = 0;
    while u < n
        invariant
            snap.wf(),
            edges == snap.edges@,
            n == snap.n(),
            color@.len() == n,
            colored(edges, color@, Seq::empty(), done@),
            u <= n,
            forall|v: int| 0 <= v < u ==> #[trigger] color@[v] == BLACK,
        decreases n - u,
    {
        let ghost color0 = color@;
        if color[u] == WHITE {
            let found: bool = explore(snap, u, &mut color, &mut done);
            if found {
                return true;
            }
            proof {
                assert forall|v: int| 0 <= v < u implies #[trigger] color@[v] == BLACK by {
                    assert(color0[v] == BLACK);
                }
            }
        }
        proof {
            assert(color@[u as int] != GRAY) by {
                assert(!Seq::<int>::empty().contains(u as int));
            }
        }
        u = u + 1;
    }
    proof {
        assert forall|p: Seq<int>| !is_cycle(edges, p) by {
            if is_cycle(edges, p) {
                assert(arc(edges, p[0int], p[0int + 1]));
                let j = choose|j: int|
                    0 <= j < edges.len() && (#[trigger] edges[j]).src == p[0] && edges[j].dst
                        == p[1];
                assert(0 <= p[0] < n);
                assert(color@[p[0]] == BLACK);
                // From the first mention of the start, a walk never comes back to it.
                let i = lemma_first_index(done@, p[0]);
                let k = lemma_done_acyclic(edges, done@, p, i);
            }
        }
    }
    false
}

/// The first position of an item.
proof fn lemma_first_index(s: Seq<int>, v: int) -> (i: int)
    requires
        s.contains(v),
    ensures
        0 <= i < s.len(),
        s[i] == v,
        forall|j: int| 0 <= j < i ==> s[j] != v,
    decreases s.len(),
{
    let t = s.drop_last();
    if t.contains(v) {
        let i = lemma_first_index(t, v);
        assert forall|j: int| 0 <= j < i implies s[j] != v by {
            assert(t[j] == s[j]);
        }
        i
    } else {
        let i = choose|i: int| 0 <= i < s.len() && s[i] == v;
        assert forall|j: int| 0 <= j < i implies s[j] != v by {
            assert(t[j] == s[j]);
        }
        if i < t.len() {
            assert(t[i] == v);
        }
        i
    }
}

/// The first of a row's targets that is not found yet is looked into before the later ones.
proof fn lemma_row_first(
    edges: Seq<Edge>,
    row: Seq<Edge>,
    st: Visit,
    depth: nat,
    room: nat,
    i: int,
)
    requires
        room > 0,
        0 <= i < row.len(),
        forall|j: int|
            0 <= j < i ==> st.best.dom().contains((#[trigger] row[j]).dst) && st.best[row[j].dst]
                <= depth + 1,
    ensures
        visit(edges, st, row[i].dst, depth + 1, (room - 1) as nat).order.is_prefix_of(
            visit_row(edges, row, st, depth, room).order,
        ),
    decreases row.len(),
{
    let rest = row.drop_last();
    let inner = visit(edges, st, row[i].dst, depth + 1, (room - 1) as nat);
    let after = visit_row(edges, row, st, depth, room);
    if i == row.len() - 1 {
        lemma_row_found(edges, rest, st, depth, room);
        assert(inner.order =~= inner.order.subrange(0, inner.order.len() as int));
    } else {
        let mid = visit_row(edges, rest, st, depth, room);
        lemma_row_first(edges, rest, st, depth, room, i);
        lemma_visit_keeps_order(edges, mid, row.last().dst, depth + 1, (room - 1) as nat);
        lemma_prefixes(inner.order, mid.order, after.order);
    }
}

proof fn lemma_prefixes(a: Seq<int>, b: Seq<int>, c: Seq<int>)
    requires
        a.is_prefix_of(b),
        b.is_prefix_of(c),
    ensures
        a.is_prefix_of(c),
        forall|i: int| 0 <= i < a.len() ==> a[i] == #[trigger] c[i],
{
    assert forall|i: int| 0 <= i < a.len() implies a[i] == #[trigger] c[i] by {
        assert(a[i] == b.subrange(0, a.len() as int)[i]);
        assert(b[i] == c.subrange(0, b.len() as int)[i]);
    }
    assert(a =~= c.subrange(0, a.len() as int));
}

/// Targets that are found already change nothing.
proof fn lemma_row_found(edges: Seq<Edge>, row: Seq<Edge>, st: Visit, depth: nat, room: nat)
    requires
        forall|j: int|
            0 <= j < row.len() ==> st.best.dom().contains((#[trigger] row[j]).dst)
                && st.best[row[j].dst] <= depth + 1,
    ensures
        visit_row(edges, row, st, depth, room) == st,
    decreases row.len(),
{
    if row.len() > 0 && room > 0 {
        let rest = row.drop_last();
        assert forall|j: int| 0 <= j < rest.len() implies st.best.dom().contains(
            (#[trigger] rest[j]).dst,
        ) && st.best[rest[j].dst] <= depth + 1 by {
            assert(rest[j] == row[j]);
        }
        lemma_row_found(edges, rest, st, depth, room);
        assert(row[row.len() - 1] == row.last());
        assert(visit(edges, st, row.last().dst, depth + 1, (room - 1) as nat) == st);
    }
}

/// A depth-first search goes from the start along its first edge that leads elsewhere, and
/// from there along the first edge that leads to a node not met yet, before it comes to
/// the other edges of the start.
pub proof fn lemma_dfs_goes_deep(edges: Seq<Edge>, s: int, hops: nat, i: int, k: int)
    requires
        hops > 0,
        0 <= i < edges.filter(leaving(s)).len(),
        edges.filter(leaving(s))[i].dst != s,
        forall|j: int| 0 <= j < i ==> (#[trigger] edges.filter(leaving(s))[j]).dst == s,
    ensures
        ({
            let order = visit(edges, no_visit(), s, 0, hops).order;
            let v = edges.filter(leaving(s))[i].dst;
            let row = edges.filter(leaving(v));
            &&& order.len() > 1 && order[1] == v
            &&& hops > 1 && 0 <= k < row.len() && row[k].dst != s && row[k].dst != v && (forall|
                j: int,
            |
                0 <= j < k ==> (#[trigger] row[j]).dst == s || row[j].dst == v) ==> order.len() > 2
                && order[2] == row[k].dst
        }),
{
    let order = visit(edges, no_visit(), s, 0, hops).order;
    let none = no_visit();
    let first = Visit { best: none.best.insert(s, 0), order: none.order.push(s) };
    let v = edges.filter(leaving(s))[i].dst;
    lemma_row_first(edges, edges.filter(leaving(s)), first, 0, hops, i);
    let inner = visit(edges, first, v, 1, (hops - 1) as nat);
    let second = Visit { best: first.best.insert(v, 1), order: first.order.push(v) };
    let row = edges.filter(leaving(v));
    assert(second.order.len() == 2 && second.order[1] == v);
    assert(second.order.is_prefix_of(inner.order)) by {
        if hops > 1 {
            lemma_row_keeps_order(edges, row, second, 1, (hops - 1) as nat);
        } else {
            assert(second.order =~= second.order.subrange(0, 2));
        }
    }
    lemma_prefixes(second.order, inner.order, order);
    if hops > 1 && 0 <= k < row.len() && row[k].dst != s && row[k].dst != v && (forall|j: int|
        0 <= j < k ==> (#[trigger] row[j]).dst == s || row[j].dst == v) {
        let w = row[k].dst;
        lemma_row_first(edges, row, second, 1, (hops - 1) as nat, k);
        let deep = visit(edges, second, w, 2, (hops - 2) as nat);
        let third = Visit { best: second.best.insert(w, 2), order: second.order.push(w) };
        assert(third.order.is_prefix_of(deep.order)) by {
            if hops > 2 {
                lemma_row_keeps_order(
                    edges,
                    edges.filter(leaving(w)),
                    third,
                    2,
                    (hops - 2) as nat,
                );
            } else {
                assert(third.order =~= third.order.subrange(0, 3));
            }
        }
        assert(third.order.len() == 3 && third.order[2] == w);
        lemma_prefixes(third.order, deep.order, inner.order);
        lemma_prefixes(third.order, inner.order, order);
    }
}

} // verus!
