//! Communities stay within weakly connected components.

use vstd::prelude::*;

use crate::components::{
    all_links, connected, lemma_connected_link, lemma_connected_self, lemma_connected_symmetric,
    lemma_connected_transitive,
};
use crate::csr::{entering, leaving, CsrSnapshot, Edge};
use crate::louvain::{
    alone, best_group, between, candidate, coarse_of, compose, gain, into_node, is_best, joins,
    leads_to, level_of, link_to, named_first, out_of_node, renumbers, settles_as, sweep, sweeps,
    LouvainLevel,
};
use crate::schema::NodeId;
use crate::sums::count;

verus! {

/// Links lead between nodes with the same mark only.
pub open spec fn keeps_links(level: LouvainLevel, mark: Seq<int>) -> bool {
    &&& mark.len() == level.n()
    &&& forall|u: int, k: int|
        #![trigger level.row(u)[k]]
        0 <= u < level.n() && 0 <= k < level.row(u).len() ==> mark[u] == mark[level.row(
            u,
        )[k].0 as int]
}

/// The members of a group have the same mark.
pub open spec fn respects(mark: Seq<int>, group: Seq<u32>) -> bool {
    &&& group.len() == mark.len()
    &&& forall|u: int, v: int|
        0 <= u < group.len() && 0 <= v < group.len() && #[trigger] group[u] == #[trigger] group[v]
            ==> mark[u] == mark[v]
}

/// Whether a node may join a group, going by its first `k` links.
spec fn candidate_to(level: LouvainLevel, group: Seq<u32>, u: int, c: u32, k: int) -> bool {
    c == group[u] || leads_to(level.row(u), group, c, k)
}

spec fn best_to(level: LouvainLevel, group: Seq<u32>, u: int, c: u32, k: int) -> bool {
    &&& candidate_to(level, group, u, c, k)
    &&& forall|d: u32| #[trigger]
        candidate_to(level, group, u, d, k) ==> gain(level, group, u, d) < gain(
            level,
            group,
            u,
            c,
        ) || (gain(level, group, u, d) == gain(level, group, u, c) && c <= d)
}

proof fn lemma_best_to(level: LouvainLevel, group: Seq<u32>, u: int, k: int) -> (c: u32)
    requires
        0 <= k <= level.row(u).len(),
    ensures
        best_to(level, group, u, c, k),
    decreases k,
{
    if k == 0 {
        group[u]
    } else {
        let b = lemma_best_to(level, group, u, k - 1);
        let d = group[level.row(u)[k - 1].0 as int];
        let (x, y) = (gain(level, group, u, b), gain(level, group, u, d));
        let c = if x < y || (x == y && d < b) {
            d
        } else {
            b
        };
        assert(leads_to(level.row(u), group, d, k)) by {
            assert(group[level.row(u)[k - 1].0 as int] == d);
        }
        assert forall|e: u32|
            candidate_to(level, group, u, e, k) == (candidate_to(level, group, u, e, k - 1) || e
                == d) by {
            if leads_to(level.row(u), group, e, k - 1) {
                let i = choose|i: int|
                    0 <= i < k - 1 && group[(#[trigger] level.row(u)[i]).0 as int] == e;
                assert(0 <= i < k);
            }
            if leads_to(level.row(u), group, e, k) && e != d {
                let i = choose|i: int|
                    0 <= i < k && group[(#[trigger] level.row(u)[i]).0 as int] == e;
                assert(i < k - 1);
            }
        }
        c
    }
}

pub(crate) proof fn lemma_best_is_candidate(level: LouvainLevel, group: Seq<u32>, u: int)
    ensures
        candidate(level, group, u, best_group(level, group, u)),
        is_best(level, group, u, best_group(level, group, u)),
{
    let k = level.row(u).len() as int;
    let c = lemma_best_to(level, group, u, k);
    assert(is_best(level, group, u, c)) by {
        assert forall|d: u32| #[trigger] candidate(level, group, u, d) implies gain(
            level,
            group,
            u,
            d,
        ) < gain(level, group, u, c) || (gain(level, group, u, d) == gain(level, group, u, c) && c
            <= d) by {
            assert(candidate_to(level, group, u, d, k));
        }
    }
    assert(is_best(level, group, u, best_group(level, group, u)));
}

proof fn lemma_sweep_respects(level: LouvainLevel, mark: Seq<int>, group: Seq<u32>, k: int)
    requires
        level.wf(),
        keeps_links(level, mark),
        respects(mark, group),
        0 <= k <= level.n(),
    ensures
        respects(mark, sweep(level, group, k)),
    decreases k,
{
    if k > 0 {
        lemma_sweep_respects(level, mark, group, k - 1);
        let before = sweep(level, group, k - 1);
        let u = k - 1;
        let b = best_group(level, before, u);
        let now = sweep(level, group, k);
        assert(now == before.update(u, b));
        lemma_best_is_candidate(level, before, u);
        assert forall|y: int| 0 <= y < before.len() && #[trigger] before[y] == b implies mark[u]
            == mark[y] by {
            if b == before[u] {
                assert(mark[u] == mark[y]);
            } else {
                let i = choose|i: int|
                    0 <= i < level.row(u).len() && before[(#[trigger] level.row(u)[i]).0 as int]
                        == b;
                let v = level.row(u)[i].0 as int;
                assert(before[v] == before[y]);
            }
        }
        assert forall|x: int, y: int|
            0 <= x < now.len() && 0 <= y < now.len() && #[trigger] now[x]
                == #[trigger] now[y] implies mark[x] == mark[y] by {
            if x == u && y != u {
                assert(before[y] == b);
            } else if y == u && x != u {
                assert(before[x] == b);
            } else if x != u {
                assert(before[x] == before[y]);
            }
        }
    }
}

proof fn lemma_sweeps_respect(level: LouvainLevel, mark: Seq<int>, group: Seq<u32>, j: nat)
    requires
        level.wf(),
        keeps_links(level, mark),
        respects(mark, group),
    ensures
        respects(mark, sweeps(level, group, j)),
    decreases j,
{
    if j > 0 {
        lemma_sweeps_respect(level, mark, group, (j - 1) as nat);
        lemma_sweep_respects(
            level,
            mark,
            sweeps(level, group, (j - 1) as nat),
            level.n() as int,
        );
    }
}

/// Where links between two groups weigh anything, a link leads from one to the other.
proof fn lemma_between(level: LouvainLevel, group: Seq<u32>, c: u32, d: u32, k: int) -> (r: (
    int,
    int,
))
    requires
        0 <= k,
        between(level, group, c, d, k) > 0,
    ensures
        0 <= r.0 < k,
        group[r.0] == c,
        0 <= r.1 < level.row(r.0).len(),
        group[level.row(r.0)[r.1].0 as int] == d,
    decreases k,
{
    let row = level.row(k - 1);
    if group[k - 1] == c && link_to(row, group, d, row.len() as int) > 0 {
        (k - 1, lemma_link_to(row, group, d, row.len() as int))
    } else {
        lemma_between(level, group, c, d, k - 1)
    }
}

proof fn lemma_link_to(row: Seq<(u32, u64)>, group: Seq<u32>, d: u32, k: int) -> (i: int)
    requires
        0 <= k,
        link_to(row, group, d, k) > 0,
    ensures
        0 <= i < k,
        group[row[i].0 as int] == d,
    decreases k,
{
    if group[row[k - 1].0 as int] == d {
        k - 1
    } else {
        lemma_link_to(row, group, d, k - 1)
    }
}

/// A member of a group.
spec fn some_member(group: Seq<u32>, c: int) -> int {
    choose|u: int| 0 <= u < group.len() && #[trigger] group[u] == c
}

/// The marks of the groups.
spec fn coarse_marks(mark: Seq<int>, group: Seq<u32>, m: nat) -> Seq<int> {
    Seq::new(m, |c: int| mark[some_member(group, c)])
}

proof fn lemma_coarse(
    level: LouvainLevel,
    mark: Seq<int>,
    community: Seq<u32>,
    group: Seq<u32>,
    coarse: LouvainLevel,
)
    requires
        level.wf(),
        keeps_links(level, mark),
        respects(mark, community),
        renumbers(community, group, coarse.n()),
        coarse_of(level, group, coarse),
    ensures
        keeps_links(coarse, coarse_marks(mark, group, coarse.n())),
        forall|u: int|
            0 <= u < group.len() ==> coarse_marks(mark, group, coarse.n())[#[trigger] group[u] as int]
                == mark[u],
{
    let marks = coarse_marks(mark, group, coarse.n());
    assert forall|u: int| 0 <= u < group.len() implies marks[#[trigger] group[u] as int]
        == mark[u] by {
        let c = group[u] as int;
        let w = some_member(group, c);
        assert(0 <= w < group.len() && group[w] == c);
        assert(group[w] == group[u]);
        assert(community[w] == community[u]);
    }
    assert forall|c: int, k: int|
        #![trigger coarse.row(c)[k]]
        0 <= c < coarse.n() && 0 <= k < coarse.row(c).len() implies marks[c] == marks[coarse.row(
        c,
    )[k].0 as int] by {
        let d = coarse.row(c)[k].0;
        assert(coarse.row(c)[k].1 > 0);
        let (u, i) = lemma_between(level, group, c as u32, d, level.n() as int);
        let v = level.row(u)[i].0 as int;
        assert(mark[u] == mark[v]);
        assert(group[u] == c && group[v] == d);
    }
}

proof fn lemma_settles(
    level: LouvainLevel,
    mark: Seq<int>,
    comp: Seq<int>,
    member: Seq<u32>,
    rounds: nat,
    out: Seq<u32>,
)
    requires
        level.wf(),
        keeps_links(level, mark),
        comp.len() == member.len(),
        forall|x: int|
            0 <= x < member.len() ==> (#[trigger] member[x]) < level.n() && mark[member[x] as int]
                == comp[x],
        settles_as(level, member, rounds, out),
    ensures
        out.len() == member.len(),
        respects(comp, out),
    decreases rounds,
{
    if rounds > 0 {
        let (coarse, group) = choose|coarse: LouvainLevel, group: Seq<u32>|
            {
                &&& #[trigger] coarse_of(level, group, coarse)
                &&& renumbers(sweeps(level, alone(level.n()), 32), group, coarse.n())
                &&& if coarse.n() == level.n() {
                    out == member
                } else if coarse.n() == 1 {
                    out == compose(member, group)
                } else {
                    settles_as(coarse, compose(member, group), (rounds - 1) as nat, out)
                }
            };
        let first = alone(level.n());
        assert(respects(mark, first)) by {
            assert forall|u: int, v: int|
                0 <= u < first.len() && 0 <= v < first.len() && #[trigger] first[u]
                    == #[trigger] first[v] implies mark[u] == mark[v] by {
                assert(first[u] == u as u32 && first[v] == v as u32);
            }
        }
        lemma_sweeps_respect(level, mark, first, 32);
        lemma_coarse(level, mark, sweeps(level, first, 32), group, coarse);
        let marks = coarse_marks(mark, group, coarse.n());
        let next = compose(member, group);
        assert forall|x: int| 0 <= x < next.len() implies (#[trigger] next[x]) < coarse.n()
            && marks[next[x] as int] == comp[x] by {
            assert(next[x] == group[member[x] as int]);
            assert(marks[group[member[x] as int] as int] == mark[member[x] as int]);
        }
        if coarse.n() != level.n() {
            if coarse.n() != 1 {
                lemma_settles(coarse, marks, comp, next, (rounds - 1) as nat, out);
            } else {
                assert(out == next);
                assert forall|x: int, y: int|
                    0 <= x < out.len() && 0 <= y < out.len() && #[trigger] out[x]
                        == #[trigger] out[y] implies comp[x] == comp[y] by {
                    assert(marks[next[x] as int] == comp[x]);
                    assert(marks[next[y] as int] == comp[y]);
                }
            }
        }
    }
}

/// Whether the nodes that an edge joins are connected, as a mark.
spec fn reached(snap: CsrSnapshot, u: int) -> Seq<int> {
    Seq::new(
        snap.n(),
        |x: int|
            if connected(all_links(snap), u, x) {
                1int
            } else {
                0int
            },
    )
}

proof fn lemma_joined(snap: CsrSnapshot, x: int, y: int)
    requires
        joins(snap.edges@, x, y) > 0,
    ensures
        connected(all_links(snap), x, y),
{
    let links = all_links(snap);
    let edges = snap.edges@;
    if count(edges.filter(leaving(x)), into_node(y)) > 0 {
        let e = lemma_counted(edges.filter(leaving(x)), into_node(y));
        let i = lemma_filtered(edges, leaving(x), e);
        assert(links[i] == (x, y));
        assert(links.contains((x, y)));
    } else {
        let e = lemma_counted(edges.filter(entering(x)), out_of_node(y));
        let i = lemma_filtered(edges, entering(x), e);
        assert(links[i] == (y, x));
        assert(links.contains((y, x)));
    }
    lemma_connected_link(links, x, y);
}

proof fn lemma_counted(s: Seq<Edge>, p: spec_fn(Edge) -> bool) -> (e: Edge)
    requires
        count(s, p) > 0,
    ensures
        s.contains(e),
        p(e),
    decreases s.len(),
{
    if s.len() == 0 {
        s[0]
    } else if p(s.last()) {
        assert(s[s.len() - 1] == s.last());
        s.last()
    } else {
        let e = lemma_counted(s.drop_last(), p);
        let i = s.drop_last().index_of(e);
        assert(s[i] == e);
        e
    }
}

proof fn lemma_filtered(edges: Seq<Edge>, p: spec_fn(Edge) -> bool, e: Edge) -> (i: int)
    requires
        edges.filter(p).contains(e),
    ensures
        0 <= i < edges.len(),
        edges[i] == e,
        p(e),
{
    let k = edges.filter(p).index_of(e);
    edges.lemma_filter_pred(p, k);
    edges.lemma_filter_contains_rev(p, e);
    edges.index_of(e)
}

/// Whether a name is that of a node which carries it.
pub open spec fn names_member(ids: Seq<NodeId>, out: Seq<NodeId>, name: NodeId) -> bool {
    exists|w: int| 0 <= w < out.len() && #[trigger] ids[w] == name && out[w] == name
}

/// Two nodes of one community of the Louvain method are weakly connected, and the
/// community is named by the smallest of its nodes.
pub proof fn lemma_communities_are_connected(
    snap: CsrSnapshot,
    level: LouvainLevel,
    member: Seq<u32>,
    out: Seq<NodeId>,
)
    requires
        snap.wf(),
        level_of(snap.edges@, snap.n(), level),
        settles_as(level, alone(snap.n()), 32, member),
        out.len() == snap.n(),
        member.len() == snap.n(),
        forall|u: int|
            0 <= u < snap.n() ==> named_first(snap.dense_to_id@, member, u, #[trigger] out[u]),
    ensures
        forall|u: int, v: int|
            #![trigger out[u], out[v]]
            0 <= u < snap.n() && 0 <= v < snap.n() && out[u] == out[v] ==> connected(
                all_links(snap),
                u,
                v,
            ),
        forall|u: int, v: int|
            #![trigger out[u], out[v]]
            0 <= u < snap.n() && 0 <= v < snap.n() && out[u] == out[v] ==> out[u]
                <= snap.dense_to_id@[v],
        forall|u: int|
            0 <= u < snap.n() ==> names_member(snap.dense_to_id@, out, #[trigger] out[u]),
{
    let links = all_links(snap);
    let ids = snap.dense_to_id@;
    let n = snap.n();
    assert forall|u: int, v: int|
        #![trigger out[u], out[v]]
        0 <= u < n && 0 <= v < n && out[u] == out[v] implies connected(links, u, v) && member[u]
        == member[v] && out[u] <= ids[v] by {
        let a = choose|a: int|
            0 <= a <= u && #[trigger] member[a] == member[u] && out[u] == ids[a] && forall|w: int|
                0 <= w < a ==> (#[trigger] member[w]) != member[u];
        let b = choose|b: int|
            0 <= b <= v && #[trigger] member[b] == member[v] && out[v] == ids[b] && forall|w: int|
                0 <= w < b ==> (#[trigger] member[w]) != member[v];
        assert(named_first(ids, member, u, out[u]));
        assert(named_first(ids, member, v, out[v]));
        assert(a == b) by {
            if a < b {
                assert(ids[a] < ids[b]);
            } else if b < a {
                assert(ids[b] < ids[a]);
            }
        }
        if b < v {
            assert(ids[b] < ids[v]);
        }
        let mark = reached(snap, u);
        assert(keeps_links(level, mark)) by {
            assert forall|x: int, k: int|
                #![trigger level.row(x)[k]]
                0 <= x < level.n() && 0 <= k < level.row(x).len() implies mark[x] == mark[level.row(
                x,
            )[k].0 as int] by {
                let y = level.row(x)[k].0 as int;
                assert(level.row(x)[k].1 > 0);
                lemma_joined(snap, x, y);
                lemma_connected_symmetric(links, x, y);
                if connected(links, u, x) {
                    lemma_connected_transitive(links, u, x, y);
                }
                if connected(links, u, y) {
                    lemma_connected_transitive(links, u, y, x);
                }
            }
        }
        lemma_settles(level, mark, mark, alone(n), 32, member);
        lemma_connected_self(links, u);
        assert(mark[u] == mark[v]);
    }
    assert forall|u: int| 0 <= u < n implies names_member(ids, out, #[trigger] out[u]) by {
        assert(named_first(ids, member, u, out[u]));
        let a = choose|a: int|
            0 <= a <= u && #[trigger] member[a] == member[u] && out[u] == ids[a] && forall|w: int|
                0 <= w < a ==> (#[trigger] member[w]) != member[u];
        assert(named_first(ids, member, a, out[a]));
        let b = choose|b: int|
            0 <= b <= a && #[trigger] member[b] == member[a] && out[a] == ids[b] && forall|w: int|
                0 <= w < b ==> (#[trigger] member[w]) != member[a];
        assert(a == b);
        assert(ids[a] == out[u] && out[a] == out[u]);
    }
}

} // verus!
