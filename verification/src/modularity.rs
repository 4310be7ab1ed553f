//! Modularity, from the edges alone, and what the Louvain method does to it.

use vstd::prelude::*;

use crate::community_laws::lemma_best_is_candidate;
use crate::csr::{entering, leaving, CsrSnapshot, Edge};
use crate::louvain::{
    alone, begins_at, best_group, between, candidate, coarse_of, compose, ends_at, gain, has_link,
    into_node, is_best, joins, leads_to, level_of, link_to, members_to, named_first, others_to,
    out_of_node, renumbers, row_weight, settles_as, sweep, sweeps, total_to, LouvainLevel,
};
use crate::schema::NodeId;
use crate::score_laws::{ends, joins_nodes};
use crate::sums::{bit, count, lemma_sum_ext, lemma_sum_filter};

verus! {

/// `f` added up over the numbers below `n`.
pub open spec fn added(n: int, f: spec_fn(int) -> int) -> int
    decreases n,
{
    if n <= 0 {
        0
    } else {
        added(n - 1, f) + f(n - 1)
    }
}

/// How many edge ends at `u` have `v` at the other end; a loop has two.
pub open spec fn joined(edges: Seq<Edge>, u: int, v: int) -> nat {
    count(edges, |e: Edge| e.src == u && e.dst == v) + count(
        edges,
        |e: Edge| e.src == v && e.dst == u,
    )
}

/// What two nodes in one part add to the modularity of a partition: the edge ends that
/// join them, against those that would by chance.
pub open spec fn attraction(edges: Seq<Edge>, u: int, v: int) -> int {
    joined(edges, u, v) * (2 * edges.len()) - ends(edges, u) * ends(edges, v)
}

/// The modularity of a partition, times the square of the number of edge ends. Two nodes
/// are in one part where they have the same mark.
pub open spec fn modularity<A>(edges: Seq<Edge>, n: nat, part: Seq<A>) -> int {
    added(
        n as int,
        |u: int|
            added(
                n as int,
                |v: int|
                    if part[u] == part[v] {
                        attraction(edges, u, v)
                    } else {
                        0
                    },
            ),
    )
}

proof fn lemma_added_ext(n: int, f: spec_fn(int) -> int, g: spec_fn(int) -> int)
    requires
        forall|i: int| 0 <= i < n ==> #[trigger] f(i) == g(i),
    ensures
        added(n, f) == added(n, g),
    decreases n,
{
    if n > 0 {
        lemma_added_ext(n - 1, f, g);
        assert(f(n - 1) == g(n - 1));
    }
}

proof fn lemma_added_plus(n: int, f: spec_fn(int) -> int, g: spec_fn(int) -> int)
    ensures
        added(n, |i: int| f(i) + g(i)) == added(n, f) + added(n, g),
    decreases n,
{
    if n > 0 {
        lemma_added_plus(n - 1, f, g);
    }
}

proof fn lemma_added_scale(n: int, c: int, f: spec_fn(int) -> int)
    ensures
        added(n, |i: int| c * f(i)) == c * added(n, f),
    decreases n,
{
    if n > 0 {
        lemma_added_scale(n - 1, c, f);
        let (a, b) = (added(n - 1, f), f(n - 1));
        assert(c * (a + b) == c * a + c * b) by (nonlinear_arith);
    } else {
        assert(c * 0 == 0);
    }
}

proof fn lemma_added_zero(n: int, f: spec_fn(int) -> int)
    requires
        forall|i: int| 0 <= i < n ==> #[trigger] f(i) == 0,
    ensures
        added(n, f) == 0,
    decreases n,
{
    if n > 0 {
        lemma_added_zero(n - 1, f);
        assert(f(n - 1) == 0);
    }
}

proof fn lemma_added_one(n: int, k: int, f: spec_fn(int) -> int)
    requires
        0 <= k < n,
        forall|i: int| 0 <= i < n && i != k ==> #[trigger] f(i) == 0,
    ensures
        added(n, f) == f(k),
    decreases n,
{
    if k == n - 1 {
        lemma_added_zero(n - 1, f);
    } else {
        lemma_added_one(n - 1, k, f);
        assert(f(n - 1) == 0);
    }
}

proof fn lemma_added_swap(n: int, m: int, f: spec_fn(int, int) -> int)
    ensures
        added(n, |i: int| added(m, |j: int| f(i, j))) == added(
            m,
            |j: int| added(n, |i: int| f(i, j)),
        ),
    decreases n,
{
    let whole = |j: int| added(n, |i: int| f(i, j));
    if n <= 0 {
        lemma_added_zero(m, |j: int| added(n, |i: int| f(i, j)));
    } else {
        lemma_added_swap(n - 1, m, f);
        let (a, b) = (|j: int| added(n - 1, |i: int| f(i, j)), |j: int| f(n - 1, j));
        lemma_added_plus(m, a, b);
        lemma_added_ext(m, whole, |j: int| a(j) + b(j));
    }
}

/// Adding up by groups and then over the groups is adding up.
proof fn lemma_added_by_group(n: int, m: int, group: Seq<u32>, f: spec_fn(int, int) -> int)
    requires
        group.len() == n,
        forall|u: int| 0 <= u < n ==> (#[trigger] group[u]) < m,
    ensures
        added(
            m,
            |c: int|
                added(
                    n,
                    |u: int|
                        if group[u] == c {
                            f(u, c)
                        } else {
                            0
                        },
                ),
        ) == added(n, |u: int| f(u, group[u] as int)),
{
    let g = |c: int, u: int|
        if group[u] == c {
            f(u, c)
        } else {
            0
        };
    lemma_added_swap(m, n, g);
    let left = |c: int|
        added(
            n,
            |u: int|
                if group[u] == c {
                    f(u, c)
                } else {
                    0
                },
        );
    assert forall|c: int| 0 <= c < m implies #[trigger] left(c) == (|c: int|
        added(n, |u: int| g(c, u)))(c) by {
        lemma_added_ext(
            n,
            |u: int|
                if group[u] == c {
                    f(u, c)
                } else {
                    0
                },
            |u: int| g(c, u),
        );
    }
    lemma_added_ext(m, left, |c: int| added(n, |u: int| g(c, u)));
    let right = |u: int| added(m, |c: int| g(c, u));
    assert forall|u: int| 0 <= u < n implies #[trigger] right(u) == (|u: int|
        f(u, group[u] as int))(u) by {
        lemma_added_one(m, group[u] as int, |c: int| g(c, u));
    }
    lemma_added_ext(n, right, |u: int| f(u, group[u] as int));
}

/// The weight of the first `k` links of a row that lead to `v`.
spec fn row_link(row: Seq<(u32, u64)>, v: int, k: int) -> int
    decreases k,
{
    if k <= 0 {
        0
    } else {
        row_link(row, v, k - 1) + (if row[k - 1].0 == v {
            row[k - 1].1 as int
        } else {
            0
        })
    }
}

/// The weight between two nodes of a level.
spec fn link(level: LouvainLevel, u: int, v: int) -> int {
    if u == v {
        level.self_weight@[u] as int
    } else {
        row_link(level.row(u), v, level.row(u).len() as int)
    }
}

/// What two nodes of a level in one group add.
spec fn pull(level: LouvainLevel, u: int, v: int) -> int {
    link(level, u, v) * level.total - level.degree@[u] * level.degree@[v]
}

/// The links of a level are the same in both directions.
spec fn balanced(level: LouvainLevel) -> bool {
    forall|u: int, v: int|
        0 <= u < level.n() && 0 <= v < level.n() ==> #[trigger] link(level, u, v) == link(
            level,
            v,
            u,
        )
}

spec fn together(level: LouvainLevel, group: Seq<u32>) -> spec_fn(int, int) -> int {
    |u: int, v: int|
        if group[u] == group[v] {
            pull(level, u, v)
        } else {
            0
        }
}

/// The modularity of groups of the nodes of a level.
spec fn level_modularity(level: LouvainLevel, group: Seq<u32>) -> int {
    let f = together(level, group);
    added(level.n() as int, |u: int| added(level.n() as int, |v: int| f(u, v)))
}

/// The links into a group, node by node.
proof fn lemma_link_to_nodes(
    row: Seq<(u32, u64)>,
    group: Seq<u32>,
    c: u32,
    k: int,
    n: int,
)
    requires
        0 <= k <= row.len(),
        forall|i: int| 0 <= i < k ==> (#[trigger] row[i]).0 < n,
    ensures
        link_to(row, group, c, k) == added(
            n,
            |v: int|
                if group[v] == c {
                    row_link(row, v, k)
                } else {
                    0
                },
        ),
    decreases k,
{
    let now = |v: int|
        if group[v] == c {
            row_link(row, v, k)
        } else {
            0
        };
    if k == 0 {
        lemma_added_zero(n, now);
    } else {
        lemma_link_to_nodes(row, group, c, k - 1, n);
        let before = |v: int|
            if group[v] == c {
                row_link(row, v, k - 1)
            } else {
                0
            };
        let x = row[k - 1].0 as int;
        let step = |v: int|
            if v == x && group[v] == c {
                row[k - 1].1 as int
            } else {
                0
            };
        lemma_added_one(n, x, step);
        lemma_added_plus(n, before, step);
        lemma_added_ext(n, now, |v: int| before(v) + step(v));
    }
}

proof fn lemma_others_nodes(degree: Seq<u64>, group: Seq<u32>, c: u32, u: int, k: int)
    requires
        0 <= k,
    ensures
        others_to(degree, group, c, u, k) == added(
            k,
            |v: int|
                if v != u && group[v] == c {
                    degree[v] as int
                } else {
                    0
                },
        ),
    decreases k,
{
    let f = |v: int|
        if v != u && group[v] == c {
            degree[v] as int
        } else {
            0
        };
    if k > 0 {
        lemma_others_nodes(degree, group, c, u, k - 1);
    }
}

proof fn lemma_members_nodes(weights: Seq<u64>, group: Seq<u32>, c: u32, k: int)
    requires
        0 <= k,
    ensures
        members_to(weights, group, c, k) == added(
            k,
            |v: int|
                if group[v] == c {
                    weights[v] as int
                } else {
                    0
                },
        ),
    decreases k,
{
    let f = |v: int|
        if group[v] == c {
            weights[v] as int
        } else {
            0
        };
    if k > 0 {
        lemma_members_nodes(weights, group, c, k - 1);
    }
}

/// No link of a row leads to its own node.
proof fn lemma_no_own_link(level: LouvainLevel, u: int, k: int)
    requires
        level.wf(),
        0 <= u < level.n(),
        0 <= k <= level.row(u).len(),
    ensures
        row_link(level.row(u), u, k) == 0,
    decreases k,
{
    if k > 0 {
        lemma_no_own_link(level, u, k - 1);
        assert(level.row(u)[k - 1].0 != u);
    }
}

/// What is compared when a node chooses a group is what it adds there.
proof fn lemma_gain(level: LouvainLevel, group: Seq<u32>, u: int, c: u32)
    requires
        level.wf(),
        group.len() == level.n(),
        0 <= u < level.n(),
    ensures
        gain(level, group, u, c) == added(
            level.n() as int,
            |v: int|
                if v != u && group[v] == c {
                    pull(level, u, v)
                } else {
                    0
                },
        ),
{
    let n = level.n() as int;
    let row = level.row(u);
    let len = row.len() as int;
    assert forall|i: int| 0 <= i < len implies (#[trigger] row[i]).0 < n by {
        assert(level.row(u)[i].0 < n);
    }
    lemma_link_to_nodes(row, group, c, len, n);
    lemma_others_nodes(level.degree@, group, c, u, n);
    lemma_no_own_link(level, u, len);
    let (t, k) = (level.total as int, level.degree@[u] as int);
    let links = |v: int|
        if group[v] == c {
            row_link(row, v, len)
        } else {
            0
        };
    let others = |v: int|
        if v != u && group[v] == c {
            level.degree@[v] as int
        } else {
            0
        };
    let pulls = |v: int|
        if v != u && group[v] == c {
            pull(level, u, v)
        } else {
            0
        };
    lemma_added_scale(n, t, links);
    lemma_added_scale(n, -k, others);
    let (a, b) = (|v: int| t * links(v), |v: int| (-k) * others(v));
    lemma_added_plus(n, a, b);
    assert forall|v: int| 0 <= v < n implies #[trigger] pulls(v) == (|v: int| a(v) + b(v))(v) by {
        let (x, d) = (links(v), others(v));
        if v != u && group[v] == c {
            assert(t * x + (-k) * d == x * t - k * d) by (nonlinear_arith);
        } else {
            assert(t * 0 == 0 && (-k) * 0 == 0);
        }
    }
    lemma_added_ext(n, pulls, |v: int| a(v) + b(v));
    let (l, o) = (
        link_to(row, group, c, len) as int,
        others_to(level.degree@, group, c, u, n) as int,
    );
    assert(l * t - o * k == t * l + (-k) * o) by (nonlinear_arith);
}

/// One move changes the modularity by twice the difference of what was compared.
proof fn lemma_move(level: LouvainLevel, group: Seq<u32>, x: int, to: u32)
    requires
        level.wf(),
        balanced(level),
        group.len() == level.n(),
        0 <= x < level.n(),
    ensures
        level_modularity(level, group.update(x, to)) - level_modularity(level, group) == 2 * (gain(
            level,
            group,
            x,
            to,
        ) - gain(level, group, x, group[x])),
{
    let n = level.n() as int;
    let now = group.update(x, to);
    let (f, g) = (together(level, group), together(level, now));
    let d = |u: int, v: int| g(u, v) - f(u, v);
    // The difference, row by row.
    let (fr, gr, dr) = (
        |u: int| added(n, |v: int| f(u, v)),
        |u: int| added(n, |v: int| g(u, v)),
        |u: int| added(n, |v: int| d(u, v)),
    );
    assert forall|u: int| 0 <= u < n implies #[trigger] gr(u) == (|u: int| fr(u) + dr(u))(u) by {
        lemma_added_plus(n, |v: int| f(u, v), |v: int| d(u, v));
        lemma_added_ext(
            n,
            |v: int| g(u, v),
            |v: int| (|v: int| f(u, v))(v) + (|v: int| d(u, v))(v),
        );
    }
    lemma_added_ext(n, gr, |u: int| fr(u) + dr(u));
    lemma_added_plus(n, fr, dr);
    // Outside the row of `x` only the entry for `x` differs.
    let column = |u: int| d(u, x);
    let own = |u: int|
        if u == x {
            dr(x)
        } else {
            0
        };
    assert(d(x, x) == 0);
    assert forall|u: int| 0 <= u < n implies #[trigger] dr(u) == (|u: int| column(u) + own(u))(
        u,
    ) by {
        if u != x {
            let row = |v: int| d(u, v);
            assert forall|v: int| 0 <= v < n && v != x implies #[trigger] row(v) == 0 by {}
            lemma_added_one(n, x, row);
        }
    }
    lemma_added_ext(n, dr, |u: int| column(u) + own(u));
    lemma_added_plus(n, column, own);
    lemma_added_one(n, x, own);
    // The column is the row.
    assert forall|u: int| 0 <= u < n implies #[trigger] column(u) == (|v: int| d(x, v))(u) by {
        assert(link(level, u, x) == link(level, x, u));
        let (p, q) = (level.degree@[u] as int, level.degree@[x] as int);
        assert(p * q == q * p) by (nonlinear_arith);
    }
    lemma_added_ext(n, column, |v: int| d(x, v));
    // The row is what was compared.
    let from = group[x];
    lemma_gain(level, group, x, to);
    lemma_gain(level, group, x, from);
    let (a, b) = (
        |v: int|
            if v != x && group[v] == to {
                pull(level, x, v)
            } else {
                0
            },
        |v: int|
            if v != x && group[v] == from {
                pull(level, x, v)
            } else {
                0
            },
    );
    let less = |v: int| (-1) * b(v);
    lemma_added_scale(n, -1, b);
    lemma_added_plus(n, a, less);
    assert(level_modularity(level, group) == added(n, fr));
    assert(level_modularity(level, now) == added(n, gr));
    let row = |v: int| d(x, v);
    assert(added(n, gr) == added(n, fr) + added(n, dr));
    assert(added(n, dr) == added(n, column) + dr(x));
    assert(dr(x) == added(n, row));
    assert(added(n, column) == added(n, row));
    assert forall|v: int| 0 <= v < n implies #[trigger] row(v) == (|v: int| a(v) + less(v))(v) by {}
    lemma_added_ext(n, row, |v: int| a(v) + less(v));
    assert(added(n, row) == added(n, a) + added(n, less));
    assert(added(n, less) == -added(n, b));
}

/// A sweep does not lower the modularity.
proof fn lemma_sweep_rises(level: LouvainLevel, group: Seq<u32>, k: int)
    requires
        level.wf(),
        balanced(level),
        group.len() == level.n(),
        0 <= k <= level.n(),
    ensures
        sweep(level, group, k).len() == level.n(),
        level_modularity(level, sweep(level, group, k)) >= level_modularity(level, group),
    decreases k,
{
    if k > 0 {
        lemma_sweep_rises(level, group, k - 1);
        let before = sweep(level, group, k - 1);
        let x = k - 1;
        let to = best_group(level, before, x);
        lemma_best_is_candidate(level, before, x);
        assert(candidate(level, before, x, before[x]));
        lemma_move(level, before, x, to);
    }
}

proof fn lemma_sweeps_rise(level: LouvainLevel, group: Seq<u32>, j: nat)
    requires
        level.wf(),
        balanced(level),
        group.len() == level.n(),
    ensures
        sweeps(level, group, j).len() == level.n(),
        level_modularity(level, sweeps(level, group, j)) >= level_modularity(level, group),
    decreases j,
{
    if j > 0 {
        lemma_sweeps_rise(level, group, (j - 1) as nat);
        lemma_sweep_rises(level, sweeps(level, group, (j - 1) as nat), level.n() as int);
    }
}

/// The modularity depends on which nodes are together only.
proof fn lemma_same_parts(level: LouvainLevel, a: Seq<u32>, b: Seq<u32>)
    requires
        forall|u: int, v: int|
            #![trigger a[u], a[v]]
            0 <= u < level.n() && 0 <= v < level.n() ==> (a[u] == a[v] <==> b[u] == b[v]),
    ensures
        level_modularity(level, a) == level_modularity(level, b),
{
    let n = level.n() as int;
    let (f, g) = (together(level, a), together(level, b));
    let (fr, gr) = (|u: int| added(n, |v: int| f(u, v)), |u: int| added(n, |v: int| g(u, v)));
    assert forall|u: int| 0 <= u < n implies #[trigger] fr(u) == gr(u) by {
        let (x, y) = (|v: int| f(u, v), |v: int| g(u, v));
        assert forall|v: int| 0 <= v < n implies #[trigger] x(v) == y(v) by {
            assert(a[u] == a[v] <==> b[u] == b[v]);
        }
        lemma_added_ext(n, x, y);
    }
    lemma_added_ext(n, fr, gr);
}

/// In an ascending row one link at most leads to a node.
proof fn lemma_row_link(row: Seq<(u32, u64)>, v: int, k: int)
    requires
        0 <= k <= row.len(),
        forall|i: int, j: int| 0 <= i < j < row.len() ==> row[i].0 < row[j].0,
    ensures
        forall|i: int| 0 <= i < k && (#[trigger] row[i]).0 == v ==> row_link(row, v, k) == row[i].1,
        (forall|i: int| 0 <= i < k ==> (#[trigger] row[i]).0 != v) ==> row_link(row, v, k) == 0,
    decreases k,
{
    if k > 0 {
        lemma_row_link(row, v, k - 1);
        assert forall|i: int| 0 <= i < k && (#[trigger] row[i]).0 == v implies row_link(row, v, k)
            == row[i].1 by {
            if i == k - 1 {
                assert forall|j: int| 0 <= j < k - 1 implies (#[trigger] row[j]).0 != v by {
                    assert(row[j].0 < row[k - 1].0);
                }
            } else {
                assert(row[i].0 < row[k - 1].0);
            }
        }
    }
}

proof fn lemma_joins(edges: Seq<Edge>, u: int, v: int)
    ensures
        joins(edges, u, v) == joined(edges, u, v),
{
    let (p, q) = (into_node(v), out_of_node(v));
    let (a, b) = (|e: Edge| bit(p(e)), |e: Edge| bit(q(e)));
    let x = |e: Edge| e.src == u && e.dst == v;
    let y = |e: Edge| e.src == v && e.dst == u;
    lemma_sum_filter(edges, leaving(u), a);
    lemma_sum_filter(edges, entering(u), b);
    lemma_sum_ext(
        edges,
        |e: Edge|
            if leaving(u)(e) {
                a(e)
            } else {
                0
            },
        |e: Edge| bit(x(e)),
    );
    lemma_sum_ext(
        edges,
        |e: Edge|
            if entering(u)(e) {
                b(e)
            } else {
                0
            },
        |e: Edge| bit(y(e)),
    );
}

/// The edge ends at a node are those that lead to each node, together.
proof fn lemma_ends_split(edges: Seq<Edge>, n: nat, u: int)
    requires
        joins_nodes(edges, n),
    ensures
        added(n as int, |v: int| joined(edges, u, v) as int) == ends(edges, u),
    decreases edges.len(),
{
    let now = |v: int| joined(edges, u, v) as int;
    if edges.len() == 0 {
        lemma_added_zero(n as int, now);
    } else {
        let rest = edges.drop_last();
        let e = edges.last();
        assert(joins_nodes(rest, n)) by {
            assert forall|k: int| 0 <= k < rest.len() implies 0 <= (#[trigger] rest[k]).src < n && 0
                <= rest[k].dst < n by {
                assert(rest[k] == edges[k]);
            }
        }
        assert(0 <= edges[edges.len() - 1].src < n && 0 <= edges[edges.len() - 1].dst < n);
        lemma_ends_split(rest, n, u);
        let before = |v: int| joined(rest, u, v) as int;
        let a = |v: int| bit(e.src == u && e.dst == v) as int;
        let b = |v: int| bit(e.src == v && e.dst == u) as int;
        lemma_added_one(n as int, e.dst, a);
        lemma_added_one(n as int, e.src, b);
        lemma_added_plus(n as int, a, b);
        let step = |v: int| a(v) + b(v);
        lemma_added_plus(n as int, before, step);
        lemma_added_ext(n as int, now, |v: int| before(v) + step(v));
    }
}

/// A row's weight, node by node.
proof fn lemma_row_weight(row: Seq<(u32, u64)>, k: int, n: int)
    requires
        0 <= k <= row.len(),
        forall|i: int| 0 <= i < k ==> (#[trigger] row[i]).0 < n,
    ensures
        row_weight(row, k) == added(n, |v: int| row_link(row, v, k)),
    decreases k,
{
    let now = |v: int| row_link(row, v, k);
    if k == 0 {
        lemma_added_zero(n, now);
    } else {
        lemma_row_weight(row, k - 1, n);
        let before = |v: int| row_link(row, v, k - 1);
        let x = row[k - 1].0 as int;
        let step = |v: int|
            if v == x {
                row[k - 1].1 as int
            } else {
                0
            };
        lemma_added_one(n, x, step);
        lemma_added_plus(n, before, step);
        lemma_added_ext(n, now, |v: int| before(v) + step(v));
    }
}

/// The first level shows the edges as they are.
proof fn lemma_first_level(edges: Seq<Edge>, n: nat, level: LouvainLevel)
    requires
        joins_nodes(edges, n),
        level_of(edges, n, level),
    ensures
        balanced(level),
        forall|u: int, v: int|
            0 <= u < n && 0 <= v < n ==> #[trigger] pull(level, u, v) == attraction(edges, u, v),
{
    assert forall|u: int, v: int| 0 <= u < n && 0 <= v < n implies #[trigger] link(level, u, v)
        == joined(edges, u, v) && level.degree@[u] == ends(edges, u) by {
        let row = level.row(u);
        let len = row.len() as int;
        assert forall|i: int, j: int| 0 <= i < j < row.len() implies row[i].0 < row[j].0 by {
            assert(level.row(u)[i].0 < level.row(u)[j].0);
        }
        assert forall|w: int| 0 <= w < n && w != u implies #[trigger] row_link(row, w, len)
            == joined(edges, u, w) by {
            lemma_row_link(row, w, len);
            lemma_joins(edges, u, w);
            if joins(edges, u, w) > 0 {
                assert(has_link(level.row(u), w));
                let i = choose|i: int| 0 <= i < row.len() && (#[trigger] row[i]).0 == w;
                assert(level.row(u)[i].1 == joins(edges, u, w));
            } else {
                assert forall|i: int| 0 <= i < len implies (#[trigger] row[i]).0 != w by {
                    assert(level.row(u)[i].1 > 0);
                    assert(level.row(u)[i].1 == joins(edges, u, level.row(u)[i].0 as int));
                }
            }
        }
        lemma_filter_ends(edges, u);
        assert(level.degree@[u] == ends_at(edges, u));
        assert(level.degree@[u] == row_weight(level.row(u), len) + level.self_weight@[u]);
        if u != v {
            assert(row_link(row, v, len) == joined(edges, u, v));
        }
        if u == v {
            assert forall|i: int| 0 <= i < len implies (#[trigger] row[i]).0 < n by {
                assert(level.row(u)[i].0 < n);
            }
            lemma_row_weight(row, len, n as int);
            lemma_ends_split(edges, n, u);
            lemma_no_own_link(level, u, len);
            let all = |w: int| joined(edges, u, w) as int;
            let others = |w: int| row_link(row, w, len);
            let own = |w: int|
                if w == u {
                    joined(edges, u, u) as int
                } else {
                    0
                };
            lemma_added_one(n as int, u, own);
            lemma_added_plus(n as int, others, own);
            assert forall|w: int| 0 <= w < n implies #[trigger] all(w) == (|w: int|
                others(w) + own(w))(w) by {
                if w != u {
                    assert(row_link(row, w, len) == joined(edges, u, w));
                }
            }
            lemma_added_ext(n as int, all, |w: int| others(w) + own(w));
            assert(added(n as int, all) == added(n as int, others) + joined(edges, u, u));
        }
    }
    assert forall|u: int, v: int| 0 <= u < n && 0 <= v < n implies #[trigger] link(level, u, v)
        == link(level, v, u) by {
        assert(link(level, u, v) == joined(edges, u, v));
        assert(link(level, v, u) == joined(edges, v, u));
        lemma_joined_symmetric(edges, u, v);
    }
    assert forall|u: int, v: int| 0 <= u < n && 0 <= v < n implies #[trigger] pull(level, u, v)
        == attraction(edges, u, v) by {
        assert(link(level, u, v) == joined(edges, u, v));
        assert(link(level, v, u) == joined(edges, v, u));
    }
}

proof fn lemma_joined_symmetric(edges: Seq<Edge>, u: int, v: int)
    ensures
        joined(edges, u, v) == joined(edges, v, u),
{
}

proof fn lemma_filter_ends(edges: Seq<Edge>, u: int)
    ensures
        ends_at(edges, u) == ends(edges, u),
{
    crate::score_laws::lemma_rows_are_ends(edges, u);
}

/// Groups of the first level have the modularity of the partition that they make.
proof fn lemma_level_is_partition(edges: Seq<Edge>, n: nat, level: LouvainLevel, group: Seq<u32>)
    requires
        joins_nodes(edges, n),
        level_of(edges, n, level),
    ensures
        level_modularity(level, group) == modularity(edges, n, group),
{
    lemma_first_level(edges, n, level);
    let f = together(level, group);
    let g = |u: int, v: int|
        if group[u] == group[v] {
            attraction(edges, u, v)
        } else {
            0
        };
    let k = n as int;
    let fr = |u: int| added(k, |v: int| f(u, v));
    let gr = |u: int|
        added(
            k,
            |v: int|
                if group[u] == group[v] {
                    attraction(edges, u, v)
                } else {
                    0
                },
        );
    assert forall|u: int| 0 <= u < k implies #[trigger] fr(u) == gr(u) by {
        lemma_added_ext(
            k,
            |v: int| f(u, v),
            |v: int|
                if group[u] == group[v] {
                    attraction(edges, u, v)
                } else {
                    0
                },
        );
    }
    lemma_added_ext(k, fr, gr);
}

/// What `f` gives for `u` and each member of a group.
spec fn picked(
    group: Seq<u32>,
    d: int,
    f: spec_fn(int, int) -> int,
    u: int,
) -> spec_fn(int) -> int {
    |v: int|
        if group[v] == d {
            f(u, v)
        } else {
            0
        }
}

/// The same, together.
spec fn over_group(
    n: int,
    group: Seq<u32>,
    d: int,
    f: spec_fn(int, int) -> int,
    u: int,
) -> int {
    added(n, picked(group, d, f, u))
}

/// What `f` gives for each member of the group `c` and those of `d`, together.
spec fn picked_rows(
    n: int,
    group: Seq<u32>,
    c: int,
    d: int,
    f: spec_fn(int, int) -> int,
) -> spec_fn(int) -> int {
    |u: int|
        if group[u] == c {
            over_group(n, group, d, f, u)
        } else {
            0
        }
}

/// The same, together.
spec fn over_groups(
    n: int,
    group: Seq<u32>,
    c: int,
    d: int,
    f: spec_fn(int, int) -> int,
) -> int {
    added(n, picked_rows(n, group, c, d, f))
}

proof fn lemma_over_groups_swap(
    n: int,
    group: Seq<u32>,
    c: int,
    d: int,
    f: spec_fn(int, int) -> int,
)
    requires
        forall|u: int, v: int| 0 <= u < n && 0 <= v < n ==> #[trigger] f(u, v) == f(v, u),
    ensures
        over_groups(n, group, c, d, f) == over_groups(n, group, d, c, f),
{
    let g = |u: int, v: int|
        if group[u] == c && group[v] == d {
            f(u, v)
        } else {
            0
        };
    let left = picked_rows(n, group, c, d, f);
    let right = picked_rows(n, group, d, c, f);
    let (x, y) = (|u: int| added(n, |v: int| g(u, v)), |v: int| added(n, |u: int| g(u, v)));
    assert forall|u: int| 0 <= u < n implies #[trigger] left(u) == x(u) by {
        let a = picked(group, d, f, u);
        if group[u] == c {
            lemma_added_ext(n, a, |v: int| g(u, v));
        } else {
            lemma_added_zero(n, |v: int| g(u, v));
        }
    }
    assert forall|v: int| 0 <= v < n implies #[trigger] right(v) == y(v) by {
        let a = picked(group, c, f, v);
        if group[v] == d {
            assert forall|u: int| 0 <= u < n implies #[trigger] a(u) == (|u: int| g(u, v))(u) by {
                assert(f(u, v) == f(v, u));
            }
            lemma_added_ext(n, a, |u: int| g(u, v));
        } else {
            lemma_added_zero(n, |u: int| g(u, v));
        }
    }
    lemma_added_ext(n, left, x);
    lemma_added_ext(n, right, y);
    lemma_added_swap(n, n, g);
}

spec fn links(level: LouvainLevel) -> spec_fn(int, int) -> int {
    |u: int, v: int| link(level, u, v)
}

spec fn pulls(level: LouvainLevel) -> spec_fn(int, int) -> int {
    |u: int, v: int| pull(level, u, v)
}

proof fn lemma_links_into(level: LouvainLevel, group: Seq<u32>, u: int, d: u32)
    requires
        level.wf(),
        group.len() == level.n(),
        0 <= u < level.n(),
    ensures
        over_group(level.n() as int, group, d as int, links(level), u) == link_to(
            level.row(u),
            group,
            d,
            level.row(u).len() as int,
        ) + (if group[u] == d {
            level.self_weight@[u] as int
        } else {
            0
        }),
{
    let n = level.n() as int;
    let row = level.row(u);
    let len = row.len() as int;
    assert forall|i: int| 0 <= i < len implies (#[trigger] row[i]).0 < n by {
        assert(level.row(u)[i].0 < n);
    }
    lemma_link_to_nodes(row, group, d, len, n);
    lemma_no_own_link(level, u, len);
    let others = |v: int|
        if group[v] == d {
            row_link(row, v, len)
        } else {
            0
        };
    let own = |v: int|
        if v == u && group[v] == d {
            level.self_weight@[u] as int
        } else {
            0
        };
    let f = links(level);
    let all = picked(group, d as int, f, u);
    lemma_added_one(n, u, own);
    lemma_added_plus(n, others, own);
    lemma_added_ext(n, all, |v: int| others(v) + own(v));
}

proof fn lemma_between_nodes(level: LouvainLevel, group: Seq<u32>, c: u32, d: u32, k: int)
    requires
        0 <= k,
    ensures
        between(level, group, c, d, k) == added(
            k,
            |u: int|
                if group[u] == c {
                    link_to(level.row(u), group, d, level.row(u).len() as int) as int
                } else {
                    0
                },
        ),
    decreases k,
{
    let f = |u: int|
        if group[u] == c {
            link_to(level.row(u), group, d, level.row(u).len() as int) as int
        } else {
            0
        };
    if k > 0 {
        lemma_between_nodes(level, group, c, d, k - 1);
    }
}

/// The weight between two groups is that between their members, together.
proof fn lemma_coarse_link(
    level: LouvainLevel,
    group: Seq<u32>,
    coarse: LouvainLevel,
    c: int,
    d: int,
)
    requires
        level.wf(),
        group.len() == level.n(),
        coarse_of(level, group, coarse),
        0 <= c < coarse.n(),
        0 <= d < coarse.n(),
    ensures
        link(coarse, c, d) == over_groups(level.n() as int, group, c, d, links(level)),
{
    let n = level.n() as int;
    let (x, y) = (c as u32, d as u32);
    let f = links(level);
    lemma_between_nodes(level, group, x, y, n);
    lemma_members_nodes(level.self_weight@, group, x, n);
    let into = |u: int|
        if group[u] == x {
            link_to(level.row(u), group, y, level.row(u).len() as int) as int
        } else {
            0
        };
    let own = |u: int|
        if group[u] == x {
            level.self_weight@[u] as int
        } else {
            0
        };
    let same = |u: int|
        if c == d {
            own(u)
        } else {
            0
        };
    let all = picked_rows(n, group, c, d, f);
    assert forall|u: int| 0 <= u < n implies #[trigger] all(u) == (|u: int| into(u) + same(u))(
        u,
    ) by {
        if group[u] == c {
            lemma_links_into(level, group, u, y);
        }
    }
    lemma_added_plus(n, into, same);
    lemma_added_ext(n, all, |u: int| into(u) + same(u));
    if c == d {
        lemma_added_ext(n, same, own);
        assert(coarse.self_weight@[c] == members_to(level.self_weight@, group, x, n) + between(
            level,
            group,
            x,
            x,
            n,
        ));
    } else {
        lemma_added_zero(n, same);
        let row = coarse.row(c);
        let len = row.len() as int;
        assert forall|i: int, j: int| 0 <= i < j < row.len() implies row[i].0 < row[j].0 by {
            assert(coarse.row(c)[i].0 < coarse.row(c)[j].0);
        }
        lemma_row_link(row, d, len);
        if between(level, group, x, y, n) > 0 {
            assert(has_link(coarse.row(c), d));
            let i = choose|i: int| 0 <= i < row.len() && (#[trigger] row[i]).0 == d;
            assert(coarse.row(c)[i].1 == between(level, group, x, coarse.row(c)[i].0, n));
        } else {
            assert forall|i: int| 0 <= i < len implies (#[trigger] row[i]).0 != d by {
                assert(coarse.row(c)[i].1 > 0);
                assert(coarse.row(c)[i].1 == between(level, group, x, coarse.row(c)[i].0, n));
            }
        }
    }
}

proof fn lemma_coarse_pull(
    level: LouvainLevel,
    group: Seq<u32>,
    coarse: LouvainLevel,
    c: int,
    d: int,
)
    requires
        level.wf(),
        group.len() == level.n(),
        coarse_of(level, group, coarse),
        0 <= c < coarse.n(),
        0 <= d < coarse.n(),
    ensures
        pull(coarse, c, d) == over_groups(level.n() as int, group, c, d, pulls(level)),
{
    let n = level.n() as int;
    let t = level.total as int;
    let (f, g) = (links(level), pulls(level));
    lemma_coarse_link(level, group, coarse, c, d);
    lemma_members_nodes(level.degree@, group, c as u32, n);
    lemma_members_nodes(level.degree@, group, d as u32, n);
    let (mc, md) = (coarse.degree@[c] as int, coarse.degree@[d] as int);
    assert(mc == members_to(level.degree@, group, c as u32, n));
    assert(md == members_to(level.degree@, group, d as u32, n));
    // For one node: what it has with the members of `d`.
    assert forall|u: int| 0 <= u < n implies #[trigger] over_group(n, group, d, g, u) == t
        * over_group(n, group, d, f, u) + (-md) * level.degree@[u] by {
        let k = level.degree@[u] as int;
        let a = picked(group, d, f, u);
        let z = d as u32;
        let b = |v: int|
            if group[v] == z {
                level.degree@[v] as int
            } else {
                0
            };
        let w = picked(group, d, g, u);
        let (ta, kb) = (|v: int| t * a(v), |v: int| (-k) * b(v));
        lemma_added_scale(n, t, a);
        lemma_added_scale(n, -k, b);
        lemma_added_plus(n, ta, kb);
        assert forall|v: int| 0 <= v < n implies #[trigger] w(v) == (|v: int| ta(v) + kb(v))(v) by {
            let (p, q) = (link(level, u, v), level.degree@[v] as int);
            if group[v] == d {
                assert(p * t - k * q == t * p + (-k) * q) by (nonlinear_arith);
            } else {
                assert(t * 0 == 0 && (-k) * 0 == 0);
            }
        }
        lemma_added_ext(n, w, |v: int| ta(v) + kb(v));
        assert((-k) * md == (-md) * k) by (nonlinear_arith);
    }
    let a = picked_rows(n, group, c, d, f);
    let z = c as u32;
    let b = |u: int|
        if group[u] == z {
            level.degree@[u] as int
        } else {
            0
        };
    let w = picked_rows(n, group, c, d, g);
    let (ta, mb) = (|u: int| t * a(u), |u: int| (-md) * b(u));
    lemma_added_scale(n, t, a);
    lemma_added_scale(n, -md, b);
    lemma_added_plus(n, ta, mb);
    assert forall|u: int| 0 <= u < n implies #[trigger] w(u) == (|u: int| ta(u) + mb(u))(u) by {
        if group[u] == c {
            assert(over_group(n, group, d, g, u) == t * over_group(n, group, d, f, u) + (-md)
                * level.degree@[u]);
        } else {
            assert(t * 0 == 0 && (-md) * 0 == 0);
        }
    }
    lemma_added_ext(n, w, |u: int| ta(u) + mb(u));
    let l = link(coarse, c, d);
    assert(l * t - mc * md == t * l + (-md) * mc) by (nonlinear_arith);
}

/// Groups of groups have the modularity of the groups of members that they make.
proof fn lemma_coarse_modularity(
    level: LouvainLevel,
    group: Seq<u32>,
    coarse: LouvainLevel,
    h: Seq<u32>,
)
    requires
        level.wf(),
        group.len() == level.n(),
        forall|u: int| 0 <= u < group.len() ==> (#[trigger] group[u]) < coarse.n(),
        coarse_of(level, group, coarse),
        h.len() == coarse.n(),
    ensures
        level_modularity(coarse, h) == level_modularity(level, compose(group, h)),
{
    let n = level.n() as int;
    let m = coarse.n() as int;
    let g = pulls(level);
    let whole = compose(group, h);
    // Over the groups `d` that are together with `c`: what `u` has with their members.
    let near = |u: int, c: int|
        added(
            m,
            |d: int|
                if h[c] == h[d] {
                    over_group(n, group, d, g, u)
                } else {
                    0
                },
        );
    assert forall|u: int, c: int| 0 <= u < n && 0 <= c < m implies #[trigger] near(u, c) == added(
        n,
        |v: int|
            if h[c] == h[group[v] as int] {
                g(u, v)
            } else {
                0
            },
    ) by {
        let f = |v: int, d: int|
            if h[c] == h[d] {
                g(u, v)
            } else {
                0
            };
        lemma_added_by_group(n, m, group, f);
        let a = |d: int|
            added(
                n,
                |v: int|
                    if group[v] == d {
                        f(v, d)
                    } else {
                        0
                    },
            );
        let b = |d: int|
            if h[c] == h[d] {
                over_group(n, group, d, g, u)
            } else {
                0
            };
        assert forall|d: int| 0 <= d < m implies #[trigger] a(d) == b(d) by {
            let x = |v: int|
                if group[v] == d {
                    f(v, d)
                } else {
                    0
                };
            if h[c] == h[d] {
                lemma_added_ext(n, x, picked(group, d, g, u));
            } else {
                lemma_added_zero(n, x);
            }
        }
        lemma_added_ext(m, a, b);
        lemma_added_ext(
            n,
            |v: int| f(v, group[v] as int),
            |v: int|
                if h[c] == h[group[v] as int] {
                    g(u, v)
                } else {
                    0
                },
        );
    }
    // One row of the next level.
    let f = together(coarse, h);
    let row = |c: int| added(m, |d: int| f(c, d));
    let split = |c: int|
        added(
            n,
            |u: int|
                if group[u] == c {
                    near(u, c)
                } else {
                    0
                },
        );
    assert forall|c: int| 0 <= c < m implies #[trigger] row(c) == split(c) by {
        let k = |d: int, u: int|
            if h[c] == h[d] && group[u] == c {
                over_group(n, group, d, g, u)
            } else {
                0
            };
        let (x, y) = (|d: int| f(c, d), |d: int| added(n, |u: int| k(d, u)));
        assert forall|d: int| 0 <= d < m implies #[trigger] x(d) == y(d) by {
            if h[c] == h[d] {
                lemma_coarse_pull(level, group, coarse, c, d);
                lemma_added_ext(n, picked_rows(n, group, c, d, g), |u: int| k(d, u));
            } else {
                lemma_added_zero(n, |u: int| k(d, u));
            }
        }
        lemma_added_ext(m, x, y);
        lemma_added_swap(m, n, k);
        let (p, q) = (
            |u: int| added(m, |d: int| k(d, u)),
            |u: int|
                if group[u] == c {
                    near(u, c)
                } else {
                    0
                },
        );
        assert forall|u: int| 0 <= u < n implies #[trigger] p(u) == q(u) by {
            if group[u] == c {
                lemma_added_ext(
                    m,
                    |d: int| k(d, u),
                    |d: int|
                        if h[c] == h[d] {
                            over_group(n, group, d, g, u)
                        } else {
                            0
                        },
                );
            } else {
                lemma_added_zero(m, |d: int| k(d, u));
            }
        }
        lemma_added_ext(n, p, q);
    }
    lemma_added_ext(m, row, split);
    lemma_added_by_group(n, m, group, near);
    // One row of this level.
    let fine = together(level, whole);
    let fr = |u: int| added(n, |v: int| fine(u, v));
    let nr = |u: int| near(u, group[u] as int);
    assert forall|u: int| 0 <= u < n implies #[trigger] nr(u) == fr(u) by {
        let c = group[u] as int;
        assert(near(u, c) == added(
            n,
            |v: int|
                if h[c] == h[group[v] as int] {
                    g(u, v)
                } else {
                    0
                },
        ));
        let x = |v: int|
            if h[c] == h[group[v] as int] {
                g(u, v)
            } else {
                0
            };
        assert forall|v: int| 0 <= v < n implies #[trigger] x(v) == (|v: int| fine(u, v))(v) by {
            assert(whole[u] == h[group[u] as int] && whole[v] == h[group[v] as int]);
        }
        lemma_added_ext(n, x, |v: int| fine(u, v));
    }
    lemma_added_ext(n, nr, fr);
}

proof fn lemma_coarse_balanced(level: LouvainLevel, group: Seq<u32>, coarse: LouvainLevel)
    requires
        level.wf(),
        balanced(level),
        group.len() == level.n(),
        coarse_of(level, group, coarse),
    ensures
        balanced(coarse),
{
    assert forall|c: int, d: int|
        0 <= c < coarse.n() && 0 <= d < coarse.n() implies #[trigger] link(coarse, c, d) == link(
        coarse,
        d,
        c,
    ) by {
        let f = links(level);
        lemma_coarse_link(level, group, coarse, c, d);
        lemma_coarse_link(level, group, coarse, d, c);
        assert forall|u: int, v: int|
            0 <= u < level.n() && 0 <= v < level.n() implies #[trigger] f(u, v) == f(v, u) by {
            assert(link(level, u, v) == link(level, v, u));
        }
        lemma_over_groups_swap(level.n() as int, group, c, d, f);
    }
}

/// The groups of a level's nodes have the modularity of the partition of the nodes that
/// they make.
spec fn stands_for(edges: Seq<Edge>, n: nat, level: LouvainLevel, member: Seq<u32>) -> bool {
    &&& level.wf()
    &&& balanced(level)
    &&& member.len() == n
    &&& forall|x: int| 0 <= x < n ==> (#[trigger] member[x]) < level.n()
    &&& forall|h: Seq<u32>|
        h.len() == level.n() ==> #[trigger] level_modularity(level, h) == modularity(
            edges,
            n,
            compose(member, h),
        )
}

/// Two nodes that an edge joins are in one group, or in groups that a link joins.
spec fn linked(edges: Seq<Edge>, level: LouvainLevel, member: Seq<u32>) -> bool {
    forall|a: int, b: int|
        0 <= a < member.len() && 0 <= b < member.len() && #[trigger] joined(edges, a, b) > 0
            && member[a] != member[b] ==> has_link(level.row(member[a] as int), member[b] as int)
}

proof fn lemma_onto(group: Seq<u32>, groups: nat)
    requires
        forall|c: int| 0 <= c < groups ==> #[trigger] begins_at(group, c),
    ensures
        groups <= group.len(),
        groups == group.len() ==> group.no_duplicates(),
{
    let nums = group.map_values(|c: u32| c as int);
    let all = vstd::set_lib::set_int_range(0, groups as int);
    vstd::set_lib::lemma_int_range(0, groups as int);
    nums.lemma_cardinality_of_set();
    assert(all.subset_of(nums.to_set())) by {
        assert forall|c: int| all.contains(c) implies nums.to_set().contains(c) by {
            assert(begins_at(group, c));
            let u = choose|u: int|
                0 <= u < group.len() && #[trigger] group[u] == c && forall|v: int|
                    0 <= v < u ==> (#[trigger] group[v]) < c;
            assert(nums[u] == c);
        }
    }
    vstd::set_lib::lemma_len_subset(all, nums.to_set());
    if groups == group.len() {
        nums.lemma_no_dup_set_cardinality();
        assert forall|i: int, j: int| 0 <= i < j < group.len() implies group[i] != group[j] by {
            assert(nums[i] != nums[j]);
        }
    }
}

proof fn lemma_renumbered(community: Seq<u32>, group: Seq<u32>, groups: nat)
    requires
        renumbers(community, group, groups),
    ensures
        groups <= group.len(),
        groups == group.len() ==> community.no_duplicates(),
{
    lemma_onto(group, groups);
    if groups == group.len() {
        assert forall|i: int, j: int| 0 <= i < j < community.len() implies community[i]
            != community[j] by {
            assert(group[i] != group[j]);
        }
    }
}

/// What one level does: its groups are no worse than its nodes alone, and the next level
/// stands for them.
proof fn lemma_one_level(
    edges: Seq<Edge>,
    n: nat,
    level: LouvainLevel,
    member: Seq<u32>,
    coarse: LouvainLevel,
    group: Seq<u32>,
)
    requires
        stands_for(edges, n, level, member),
        coarse_of(level, group, coarse),
        renumbers(sweeps(level, alone(level.n()), 32), group, coarse.n()),
    ensures
        stands_for(edges, n, coarse, compose(member, group)),
        modularity(edges, n, compose(member, group)) >= modularity(edges, n, member),
        coarse.n() <= level.n(),
{
    let first = alone(level.n());
    let community = sweeps(level, first, 32);
    let next = compose(member, group);
    lemma_sweeps_rise(level, first, 32);
    lemma_renumbered(community, group, coarse.n());
    assert(compose(member, first) =~= member) by {
        assert forall|x: int| 0 <= x < n implies compose(member, first)[x] == member[x] by {
            assert(member[x] < level.n());
        }
    }
    assert(level_modularity(level, first) == modularity(edges, n, member));
    lemma_same_parts(level, group, community);
    assert(level_modularity(level, group) == modularity(edges, n, next));
    lemma_coarse_balanced(level, group, coarse);
    assert forall|x: int| 0 <= x < n implies (#[trigger] next[x]) < coarse.n() by {
        assert(member[x] < level.n());
        assert(group[member[x] as int] < coarse.n());
    }
    assert forall|h: Seq<u32>| h.len() == coarse.n() implies #[trigger] level_modularity(coarse, h)
        == modularity(edges, n, compose(next, h)) by {
        lemma_coarse_modularity(level, group, coarse, h);
        let both = compose(group, h);
        assert(level_modularity(level, both) == modularity(edges, n, compose(member, both)));
        assert(compose(member, both) =~= compose(next, h)) by {
            assert forall|x: int| 0 <= x < n implies compose(member, both)[x] == compose(
                next,
                h,
            )[x] by {
                assert(member[x] < level.n());
            }
        }
    }
}

proof fn lemma_settles_rise(
    edges: Seq<Edge>,
    n: nat,
    level: LouvainLevel,
    member: Seq<u32>,
    rounds: nat,
    out: Seq<u32>,
)
    requires
        stands_for(edges, n, level, member),
        settles_as(level, member, rounds, out),
    ensures
        out.len() == n,
        modularity(edges, n, out) >= modularity(edges, n, member),
    decreases rounds,
{
    if rounds > 0 {
        let (coarse, group) = choose|coarse: LouvainLevel, group: Seq<u32>|
            {
                &&& #[trigger] coarse_of(level, group, coarse)
                &&& renumbers(sweeps(level, alone(level.n()), 32), group, coarse.n())
                &&& if coarse.n() == level.n() {
                    out == member
                } else if coarse.n() == 1 {
                    out == compose(member, group)
                } else {
                    settles_as(coarse, compose(member, group), (rounds - 1) as nat, out)
                }
            };
        lemma_one_level(edges, n, level, member, coarse, group);
        if coarse.n() != level.n() && coarse.n() != 1 {
            lemma_settles_rise(
                edges,
                n,
                coarse,
                compose(member, group),
                (rounds - 1) as nat,
                out,
            );
        }
    }
}

/// The modularity of a partition depends on which nodes are together only.
proof fn lemma_same_partition<A, B>(edges: Seq<Edge>, n: nat, a: Seq<A>, b: Seq<B>)
    requires
        forall|u: int, v: int|
            #![trigger a[u], a[v]]
            0 <= u < n && 0 <= v < n ==> (a[u] == a[v] <==> b[u] == b[v]),
    ensures
        modularity(edges, n, a) == modularity(edges, n, b),
{
    let k = n as int;
    let fr = |u: int|
        added(
            k,
            |v: int|
                if a[u] == a[v] {
                    attraction(edges, u, v)
                } else {
                    0
                },
        );
    let gr = |u: int|
        added(
            k,
            |v: int|
                if b[u] == b[v] {
                    attraction(edges, u, v)
                } else {
                    0
                },
        );
    assert forall|u: int| 0 <= u < k implies #[trigger] fr(u) == gr(u) by {
        let x = |v: int|
            if a[u] == a[v] {
                attraction(edges, u, v)
            } else {
                0
            };
        let y = |v: int|
            if b[u] == b[v] {
                attraction(edges, u, v)
            } else {
                0
            };
        assert forall|v: int| 0 <= v < k implies #[trigger] x(v) == y(v) by {
            assert(a[u] == a[v] <==> b[u] == b[v]);
        }
        lemma_added_ext(k, x, y);
    }
    lemma_added_ext(k, fr, gr);
}

proof fn lemma_first_stands(edges: Seq<Edge>, n: nat, level: LouvainLevel)
    requires
        joins_nodes(edges, n),
        level_of(edges, n, level),
        n < u32::MAX,
    ensures
        stands_for(edges, n, level, alone(n)),
        linked(edges, level, alone(n)),
{
    let member = alone(n);
    lemma_first_level(edges, n, level);
    assert forall|h: Seq<u32>| h.len() == level.n() implies #[trigger] level_modularity(level, h)
        == modularity(edges, n, compose(member, h)) by {
        lemma_level_is_partition(edges, n, level, h);
        assert(compose(member, h) =~= h);
    }
    assert forall|a: int, b: int|
        0 <= a < member.len() && 0 <= b < member.len() && #[trigger] joined(edges, a, b) > 0
            && member[a] != member[b] implies has_link(
        level.row(member[a] as int),
        member[b] as int,
    ) by {
        lemma_joins(edges, a, b);
        assert(member[a] == a && member[b] == b);
        assert(joins(edges, a, b) > 0);
    }
}

/// Two results put the same nodes together where their names come from the same members.
proof fn lemma_named_parts(
    ids: Seq<NodeId>,
    member: Seq<u32>,
    out: Seq<NodeId>,
    u: int,
    v: int,
)
    requires
        crate::csr::ascending(ids),
        ids.len() == out.len(),
        member.len() == out.len(),
        0 <= u < out.len(),
        0 <= v < out.len(),
        named_first(ids, member, u, out[u]),
        named_first(ids, member, v, out[v]),
    ensures
        out[u] == out[v] <==> member[u] == member[v],
{
    let a = choose|a: int|
        0 <= a <= u && #[trigger] member[a] == member[u] && out[u] == ids[a] && forall|w: int|
            0 <= w < a ==> (#[trigger] member[w]) != member[u];
    let b = choose|b: int|
        0 <= b <= v && #[trigger] member[b] == member[v] && out[v] == ids[b] && forall|w: int|
            0 <= w < b ==> (#[trigger] member[w]) != member[v];
    if a < b {
        assert(ids[a] < ids[b]);
    } else if b < a {
        assert(ids[b] < ids[a]);
    }
}

/// The Louvain method gives a partition whose modularity is no less than that of every node
/// alone.
pub proof fn lemma_louvain_raises_modularity(
    snap: CsrSnapshot,
    level: LouvainLevel,
    member: Seq<u32>,
    out: Seq<NodeId>,
)
    requires
        snap.wf(),
        level_of(snap.edges@, snap.n(), level),
        settles_as(level, alone(snap.n()), 32, member),
        out.len() == snap.n(),
        member.len() == snap.n(),
        forall|u: int|
            0 <= u < snap.n() ==> named_first(snap.dense_to_id@, member, u, #[trigger] out[u]),
    ensures
        modularity(snap.edges@, snap.n(), out) >= modularity(
            snap.edges@,
            snap.n(),
            snap.dense_to_id@,
        ),
{
    let (edges, n) = (snap.edges@, snap.n());
    let ids = snap.dense_to_id@;
    lemma_first_stands(edges, n, level);
    lemma_settles_rise(edges, n, level, alone(n), 32, member);
    assert forall|u: int, v: int|
        #![trigger out[u], out[v]]
        0 <= u < n && 0 <= v < n implies (out[u] == out[v] <==> member[u] == member[v]) by {
        assert(named_first(ids, member, u, out[u]));
        assert(named_first(ids, member, v, out[v]));
        lemma_named_parts(ids, member, out, u, v);
    }
    lemma_same_partition(edges, n, out, member);
    let first = alone(n);
    assert forall|u: int, v: int|
        #![trigger ids[u], ids[v]]
        0 <= u < n && 0 <= v < n implies (ids[u] == ids[v] <==> first[u] == first[v]) by {
        assert(first[u] == u && first[v] == v);
        if u < v {
            assert(ids[u] < ids[v]);
        } else if v < u {
            assert(ids[v] < ids[u]);
        }
    }
    lemma_same_partition(edges, n, ids, first);
}

/// A node moves, in its turn, to the group that raises the modularity the most, of its own
/// and those that edges lead to; where several do, to the one with the smallest number.
pub proof fn lemma_moves_raise_modularity(
    edges: Seq<Edge>,
    n: nat,
    level: LouvainLevel,
    group: Seq<u32>,
    k: int,
    v: int,
)
    requires
        joins_nodes(edges, n),
        level_of(edges, n, level),
        group.len() == n,
        0 <= k < n,
        0 <= v < n,
        v == k || joined(edges, k, v) > 0,
    ensures
        ({
            let before = sweep(level, group, k);
            let after = sweep(level, group, k + 1);
            let other = before.update(k, before[v]);
            &&& before.len() == n && after.len() == n
            &&& forall|u: int| 0 <= u < n && u != k ==> #[trigger] after[u] == before[u]
            &&& exists|w: int|
                0 <= w < n && (w == k || joined(edges, k, w) > 0) && after[k]
                    == #[trigger] before[w]
            &&& modularity(edges, n, after) >= modularity(edges, n, other)
            &&& modularity(edges, n, after) == modularity(edges, n, other) ==> after[k]
                <= other[k]
        }),
{
    lemma_first_level(edges, n, level);
    lemma_sweep_len(level, group, k);
    let before = sweep(level, group, k);
    let after = sweep(level, group, k + 1);
    let to = best_group(level, before, k);
    assert(after == before.update(k, to));
    let c = before[v];
    let other = before.update(k, c);
    lemma_best_is_candidate(level, before, k);
    lemma_move(level, before, k, to);
    lemma_move(level, before, k, c);
    lemma_level_is_partition(edges, n, level, after);
    lemma_level_is_partition(edges, n, level, other);
    assert(candidate(level, before, k, c)) by {
        if v != k {
            lemma_joins(edges, k, v);
            assert(joins(edges, k, v) > 0);
            assert(has_link(level.row(k), v));
            let i = choose|i: int|
                0 <= i < level.row(k).len() && (#[trigger] level.row(k)[i]).0 == v;
            assert(before[level.row(k)[i].0 as int] == c);
            assert(leads_to(level.row(k), before, c, level.row(k).len() as int));
        }
    }
    assert(exists|w: int|
        0 <= w < n && (w == k || joined(edges, k, w) > 0) && after[k] == #[trigger] before[w]) by {
        if to == before[k] {
            assert(after[k] == before[k]);
        } else {
            let i = choose|i: int|
                0 <= i < level.row(k).len() && before[(#[trigger] level.row(k)[i]).0 as int] == to;
            let w = level.row(k)[i].0 as int;
            assert(level.row(k)[i].0 < n && level.row(k)[i].1 > 0);
            assert(level.row(k)[i].1 == joins(edges, k, w));
            lemma_joins(edges, k, w);
            assert(after[k] == before[w]);
        }
    }
}

proof fn lemma_sweep_len(level: LouvainLevel, group: Seq<u32>, k: int)
    requires
        group.len() == level.n(),
        0 <= k <= level.n(),
    ensures
        sweep(level, group, k).len() == level.n(),
    decreases k,
{
    if k > 0 {
        lemma_sweep_len(level, group, k - 1);
    }
}

/// Where a sweep moves no node, moving one to a group that an edge of it leads to does not
/// raise the modularity.
pub proof fn lemma_settled_is_best(
    edges: Seq<Edge>,
    n: nat,
    level: LouvainLevel,
    group: Seq<u32>,
    u: int,
    v: int,
)
    requires
        joins_nodes(edges, n),
        level_of(edges, n, level),
        group.len() == n,
        sweep(level, group, n as int) == group,
        0 <= u < n,
        0 <= v < n,
        joined(edges, u, v) > 0,
    ensures
        modularity(edges, n, group.update(u, group[v])) <= modularity(edges, n, group),
{
    lemma_still(level, group, n as int, u);
    lemma_moves_raise_modularity(edges, n, level, group, u, v);
    lemma_still(level, group, n as int, u + 1);
}

/// A sweep that ends where it began moves no node on the way.
proof fn lemma_still(level: LouvainLevel, group: Seq<u32>, k: int, j: int)
    requires
        group.len() == level.n(),
        0 <= j <= k <= level.n(),
        sweep(level, group, k) == group,
    ensures
        sweep(level, group, j) == group,
    decreases k,
{
    if j < k {
        lemma_sweep_len(level, group, k - 1);
        lemma_untouched(level, group, k - 1, k - 1);
        let before = sweep(level, group, k - 1);
        assert(before =~= group) by {
            assert forall|x: int| 0 <= x < before.len() implies before[x] == group[x] by {
                if x != k - 1 {
                    assert(sweep(level, group, k)[x] == before[x]);
                }
            }
        }
        lemma_still(level, group, k - 1, j);
    }
}

/// A node whose turn has not come is where it was.
proof fn lemma_untouched(level: LouvainLevel, group: Seq<u32>, k: int, x: int)
    requires
        group.len() == level.n(),
        0 <= k <= x < level.n(),
    ensures
        sweep(level, group, k)[x] == group[x],
    decreases k,
{
    if k > 0 {
        lemma_sweep_len(level, group, k - 1);
        lemma_untouched(level, group, k - 1, x);
    }
}

/// A link into a group makes the links between the groups weigh something.
proof fn lemma_link_counts(level: LouvainLevel, group: Seq<u32>, c: int, d: int)
    requires
        level.wf(),
        group.len() == level.n(),
        0 <= c < level.n(),
        has_link(level.row(c), d),
    ensures
        between(level, group, group[c], group[d], level.n() as int) > 0,
{
    let row = level.row(c);
    let i = choose|i: int| 0 <= i < row.len() && (#[trigger] row[i]).0 == d;
    assert(level.row(c)[i].1 > 0);
    lemma_link_weighs(row, group, group[d], i, row.len() as int);
    lemma_between_weighs(level, group, group[c], group[d], c, level.n() as int);
}

proof fn lemma_link_weighs(row: Seq<(u32, u64)>, group: Seq<u32>, d: u32, i: int, k: int)
    requires
        0 <= i < k <= row.len(),
        group[row[i].0 as int] == d,
        row[i].1 > 0,
    ensures
        link_to(row, group, d, k) > 0,
    decreases k,
{
    if i < k - 1 {
        lemma_link_weighs(row, group, d, i, k - 1);
    }
}

proof fn lemma_between_weighs(
    level: LouvainLevel,
    group: Seq<u32>,
    c: u32,
    d: u32,
    u: int,
    k: int,
)
    requires
        0 <= u < k,
        group[u] == c,
        link_to(level.row(u), group, d, level.row(u).len() as int) > 0,
    ensures
        between(level, group, c, d, k) > 0,
    decreases k,
{
    if u < k - 1 {
        lemma_between_weighs(level, group, c, d, u, k - 1);
    }
}

proof fn lemma_next_linked(
    edges: Seq<Edge>,
    level: LouvainLevel,
    member: Seq<u32>,
    coarse: LouvainLevel,
    group: Seq<u32>,
)
    requires
        level.wf(),
        linked(edges, level, member),
        forall|x: int| 0 <= x < member.len() ==> (#[trigger] member[x]) < level.n(),
        coarse_of(level, group, coarse),
        group.len() == level.n(),
        forall|u: int| 0 <= u < group.len() ==> (#[trigger] group[u]) < coarse.n(),
    ensures
        linked(edges, coarse, compose(member, group)),
{
    let next = compose(member, group);
    assert forall|a: int, b: int|
        0 <= a < next.len() && 0 <= b < next.len() && #[trigger] joined(edges, a, b) > 0 && next[a]
            != next[b] implies has_link(coarse.row(next[a] as int), next[b] as int) by {
        let (c, d) = (member[a] as int, member[b] as int);
        assert(member[a] < level.n() && member[b] < level.n());
        assert(next[a] == group[c] && next[b] == group[d]);
        assert(group[c] < coarse.n() && group[d] < coarse.n());
        lemma_link_counts(level, group, c, d);
        let (x, y) = (group[c] as int, group[d] as int);
        assert(between(level, group, x as u32, y as u32, level.n() as int) > 0);
    }
}

/// Groups that are all different are those of nodes that never moved.
proof fn lemma_never_moved(level: LouvainLevel, group: Seq<u32>, k: int)
    requires
        level.wf(),
        group.len() == level.n(),
        0 <= k <= level.n(),
        sweep(level, group, k).no_duplicates(),
    ensures
        sweep(level, group, k) == group,
    decreases k,
{
    if k > 0 {
        lemma_sweep_len(level, group, k - 1);
        let before = sweep(level, group, k - 1);
        let after = sweep(level, group, k);
        let x = k - 1;
        let to = best_group(level, before, x);
        lemma_best_is_candidate(level, before, x);
        if to != before[x] {
            let i = choose|i: int|
                0 <= i < level.row(x).len() && before[(#[trigger] level.row(x)[i]).0 as int] == to;
            let v = level.row(x)[i].0 as int;
            assert(level.row(x)[i].0 < level.n() && level.row(x)[i].0 != x);
            assert(after[v] == after[x]);
        }
        assert(after =~= before);
        lemma_never_moved(level, group, k - 1);
    }
}

proof fn lemma_never_swept(level: LouvainLevel, group: Seq<u32>, j: nat)
    requires
        level.wf(),
        group.len() == level.n(),
        sweeps(level, group, j).no_duplicates(),
        j > 0,
    ensures
        sweep(level, group, level.n() as int) == group,
    decreases j,
{
    let before = sweeps(level, group, (j - 1) as nat);
    lemma_sweeps_len(level, group, (j - 1) as nat);
    lemma_never_moved(level, before, level.n() as int);
    if j > 1 {
        lemma_never_swept(level, group, (j - 1) as nat);
    }
}

proof fn lemma_sweeps_len(level: LouvainLevel, group: Seq<u32>, j: nat)
    requires
        group.len() == level.n(),
    ensures
        sweeps(level, group, j).len() == level.n(),
    decreases j,
{
    if j > 0 {
        lemma_sweeps_len(level, group, (j - 1) as nat);
        lemma_sweep_len(level, sweeps(level, group, (j - 1) as nat), level.n() as int);
    }
}

/// The partition with the part of `b` in that of `a`.
pub open spec fn merged<A>(part: Seq<A>, a: int, b: int) -> Seq<A> {
    Seq::new(
        part.len(),
        |x: int|
            if part[x] == part[b] {
                part[a]
            } else {
                part[x]
            },
    )
}

/// Where a level's nodes stay alone, joining two of them that are linked does not pay.
proof fn lemma_stay_alone(
    edges: Seq<Edge>,
    n: nat,
    level: LouvainLevel,
    member: Seq<u32>,
    a: int,
    b: int,
)
    requires
        stands_for(edges, n, level, member),
        linked(edges, level, member),
        sweep(level, alone(level.n()), level.n() as int) == alone(level.n()),
        0 <= a < n,
        0 <= b < n,
        joined(edges, a, b) > 0,
    ensures
        modularity(edges, n, merged(member, a, b)) <= modularity(edges, n, member),
{
    let first = alone(level.n());
    let (c, d) = (member[a] as int, member[b] as int);
    assert(member[a] < level.n() && member[b] < level.n());
    if c == d {
        assert(merged(member, a, b) =~= member);
    } else {
        lemma_joined_symmetric(edges, a, b);
        assert(joined(edges, b, a) > 0);
        assert(has_link(level.row(d), c));
        lemma_still(level, first, level.n() as int, d);
        lemma_still(level, first, level.n() as int, d + 1);
        lemma_best_is_candidate(level, first, d);
        let to = best_group(level, first, d);
        assert(first.update(d, to)[d] == first[d]);
        let i = choose|i: int| 0 <= i < level.row(d).len() && (#[trigger] level.row(d)[i]).0 == c;
        assert(first[level.row(d)[i].0 as int] == c as u32);
        assert(leads_to(level.row(d), first, c as u32, level.row(d).len() as int));
        assert(candidate(level, first, d, c as u32));
        let moved = first.update(d, c as u32);
        lemma_move(level, first, d, c as u32);
        assert(level_modularity(level, moved) <= level_modularity(level, first));
        assert(level_modularity(level, moved) == modularity(edges, n, compose(member, moved)));
        assert(level_modularity(level, first) == modularity(edges, n, compose(member, first)));
        assert(compose(member, first) =~= member) by {
            assert forall|x: int| 0 <= x < n implies compose(member, first)[x] == member[x] by {
                assert(member[x] < level.n());
            }
        }
        assert(compose(member, moved) =~= merged(member, a, b)) by {
            assert forall|x: int| 0 <= x < n implies compose(member, moved)[x] == merged(
                member,
                a,
                b,
            )[x] by {
                assert(member[x] < level.n());
            }
        }
    }
}

proof fn lemma_settles_best(
    edges: Seq<Edge>,
    n: nat,
    level: LouvainLevel,
    member: Seq<u32>,
    rounds: nat,
    out: Seq<u32>,
    a: int,
    b: int,
)
    requires
        stands_for(edges, n, level, member),
        linked(edges, level, member),
        settles_as(level, member, rounds, out),
        level.n() <= rounds + 1,
        0 <= a < n,
        0 <= b < n,
        joined(edges, a, b) > 0,
    ensures
        out.len() == n,
        modularity(edges, n, merged(out, a, b)) <= modularity(edges, n, out),
    decreases rounds,
{
    if rounds == 0 {
        assert(member[a] < level.n() && member[b] < level.n());
        assert(merged(out, a, b) =~= out);
    } else {
        let (coarse, group) = choose|coarse: LouvainLevel, group: Seq<u32>|
            {
                &&& #[trigger] coarse_of(level, group, coarse)
                &&& renumbers(sweeps(level, alone(level.n()), 32), group, coarse.n())
                &&& if coarse.n() == level.n() {
                    out == member
                } else if coarse.n() == 1 {
                    out == compose(member, group)
                } else {
                    settles_as(coarse, compose(member, group), (rounds - 1) as nat, out)
                }
            };
        let first = alone(level.n());
        let next = compose(member, group);
        lemma_one_level(edges, n, level, member, coarse, group);
        lemma_sweeps_len(level, first, 32);
        lemma_renumbered(sweeps(level, first, 32), group, coarse.n());
        if coarse.n() == level.n() {
            lemma_never_swept(level, first, 32);
            lemma_stay_alone(edges, n, level, member, a, b);
        } else if coarse.n() == 1 {
            assert(next[a] < coarse.n() && next[b] < coarse.n());
            assert(merged(out, a, b) =~= out);
        } else {
            lemma_next_linked(edges, level, member, coarse, group);
            lemma_settles_best(edges, n, coarse, next, (rounds - 1) as nat, out, a, b);
        }
    }
}

/// On a graph of at most 33 nodes, which the method never leaves before it is done, putting
/// two communities together that an edge joins does not raise the modularity.
pub proof fn lemma_communities_need_no_merging(
    snap: CsrSnapshot,
    level: LouvainLevel,
    member: Seq<u32>,
    out: Seq<NodeId>,
    a: int,
    b: int,
)
    requires
        snap.wf(),
        snap.n() <= 33,
        level_of(snap.edges@, snap.n(), level),
        settles_as(level, alone(snap.n()), 32, member),
        out.len() == snap.n(),
        member.len() == snap.n(),
        forall|u: int|
            0 <= u < snap.n() ==> named_first(snap.dense_to_id@, member, u, #[trigger] out[u]),
        0 <= a < snap.n(),
        0 <= b < snap.n(),
        joined(snap.edges@, a, b) > 0,
    ensures
        modularity(snap.edges@, snap.n(), merged(out, a, b)) <= modularity(
            snap.edges@,
            snap.n(),
            out,
        ),
{
    let (edges, n) = (snap.edges@, snap.n());
    let ids = snap.dense_to_id@;
    lemma_first_stands(edges, n, level);
    lemma_settles_best(edges, n, level, alone(n), 32, member, a, b);
    assert forall|u: int, v: int| 0 <= u < n && 0 <= v < n implies (#[trigger] out[u]
        == #[trigger] out[v] <==> member[u] == member[v]) by {
        assert(named_first(ids, member, u, out[u]));
        assert(named_first(ids, member, v, out[v]));
        lemma_named_parts(ids, member, out, u, v);
    }
    lemma_same_partition(edges, n, out, member);
    let (x, y) = (merged(out, a, b), merged(member, a, b));
    assert forall|u: int, v: int|
        #![trigger x[u], x[v]]
        0 <= u < n && 0 <= v < n implies (x[u] == x[v] <==> y[u] == y[v]) by {
        assert(out[u] == out[v] <==> member[u] == member[v]);
        assert(out[u] == out[b] <==> member[u] == member[b]);
        assert(out[v] == out[b] <==> member[v] == member[b]);
        assert(out[u] == out[a] <==> member[u] == member[a]);
        assert(out[v] == out[a] <==> member[v] == member[a]);
    }
    lemma_same_partition(edges, n, x, y);
}

/// Every two nodes are joined by one edge, and none by a loop.
pub open spec fn complete(edges: Seq<Edge>, n: nat) -> bool {
    forall|u: int, v: int|
        0 <= u < n && 0 <= v < n ==> #[trigger] joined(edges, u, v) == (if u == v {
            0nat
        } else {
            1nat
        })
}

/// The groups of a complete graph after `k` turns.
spec fn gathering(n: nat, k: int) -> Seq<u32> {
    Seq::new(
        n,
        |x: int|
            if k > 0 && (x < 2 || x < k) {
                1u32
            } else {
                x as u32
            },
    )
}

/// The terms of a sum are no more than the sum, where none is negative.
proof fn lemma_added_part(n: int, f: spec_fn(int) -> int, i: int, j: int)
    requires
        0 <= i < j < n,
        forall|k: int| 0 <= k < n ==> #[trigger] f(k) >= 0,
    ensures
        added(n, f) >= f(i) + f(j),
    decreases n,
{
    if j == n - 1 {
        lemma_added_term(n - 1, f, i);
    } else {
        lemma_added_part(n - 1, f, i, j);
        assert(f(n - 1) >= 0);
    }
}

proof fn lemma_added_term(n: int, f: spec_fn(int) -> int, i: int)
    requires
        0 <= i < n,
        forall|k: int| 0 <= k < n ==> #[trigger] f(k) >= 0,
    ensures
        added(n, f) >= f(i),
    decreases n,
{
    if i == n - 1 {
        lemma_added_below(n - 1, f);
    } else {
        lemma_added_term(n - 1, f, i);
        assert(f(n - 1) >= 0);
    }
}

proof fn lemma_added_below(n: int, f: spec_fn(int) -> int)
    requires
        forall|k: int| 0 <= k < n ==> #[trigger] f(k) >= 0,
    ensures
        added(n, f) >= 0,
    decreases n,
{
    if n > 0 {
        lemma_added_below(n - 1, f);
        assert(f(n - 1) >= 0);
    }
}

/// In a complete graph any two nodes attract each other alike.
proof fn lemma_complete_pull(edges: Seq<Edge>, n: nat, level: LouvainLevel, u: int, v: int)
    requires
        joins_nodes(edges, n),
        level_of(edges, n, level),
        complete(edges, n),
        0 <= u < n,
        0 <= v < n,
        u != v,
    ensures
        pull(level, u, v) == n - 1,
{
    let k = n as int;
    lemma_first_level(edges, n, level);
    assert forall|w: int| 0 <= w < n implies #[trigger] ends(edges, w) == n - 1 by {
        lemma_ends_split(edges, n, w);
        let all = |x: int| joined(edges, w, x) as int;
        let one = |x: int| 1int;
        let own = |x: int|
            if x == w {
                -1int
            } else {
                0
            };
        lemma_added_ones(k);
        lemma_added_one(k, w, own);
        lemma_added_plus(k, one, own);
        assert forall|x: int| 0 <= x < k implies #[trigger] all(x) == (|x: int| one(x) + own(x))(
            x,
        ) by {
            assert(joined(edges, w, x) == (if w == x {
                0nat
            } else {
                1nat
            }));
        }
        lemma_added_ext(k, all, |x: int| one(x) + own(x));
    }
    lemma_total_ends(edges, n, level, k);
    assert(joined(edges, u, v) == 1);
    assert(ends(edges, u) == n - 1 && ends(edges, v) == n - 1);
    assert(pull(level, u, v) == attraction(edges, u, v));
    let m = (n - 1) as int;
    assert(1 * (k * m) - m * m == m) by (nonlinear_arith)
        requires
            k == m + 1,
    ;
}

proof fn lemma_added_ones(n: int)
    requires
        n >= 0,
    ensures
        added(n, |x: int| 1int) == n,
    decreases n,
{
    if n > 0 {
        lemma_added_ones(n - 1);
    }
}

proof fn lemma_total_ends(edges: Seq<Edge>, n: nat, level: LouvainLevel, k: int)
    requires
        level_of(edges, n, level),
        n > 0,
        forall|w: int| 0 <= w < n ==> #[trigger] ends(edges, w) == n - 1,
        k == n,
    ensures
        2 * edges.len() == n * (n - 1),
{
    lemma_total_same(edges, n, level, k);
}

proof fn lemma_total_same(edges: Seq<Edge>, n: nat, level: LouvainLevel, k: int)
    requires
        level_of(edges, n, level),
        n > 0,
        forall|w: int| 0 <= w < n ==> #[trigger] ends(edges, w) == n - 1,
        0 <= k <= n,
    ensures
        total_to(level.degree@, k) == k * (n - 1),
    decreases k,
{
    let m = n - 1;
    if k > 0 {
        lemma_total_same(edges, n, level, k - 1);
        lemma_filter_ends(edges, k - 1);
        assert(level.degree@[k - 1] == ends_at(edges, k - 1));
        assert(ends(edges, k - 1) == m);
        assert((k - 1) * m + m == k * m) by (nonlinear_arith);
    } else {
        assert(0 * m == 0);
    }
}

/// Another group of a complete graph holds one node at most.
proof fn lemma_gathers_less(edges: Seq<Edge>, n: nat, level: LouvainLevel, k: int, d: u32)
    requires
        joins_nodes(edges, n),
        level_of(edges, n, level),
        complete(edges, n),
        2 <= n < u32::MAX,
        0 <= k < n,
        d != 1,
    ensures
        gain(level, gathering(n, k), k, d) <= n - 1,
        d == 0 ==> gain(level, gathering(n, k), k, d) == 0,
{
    let g = gathering(n, k);
    lemma_first_level(edges, n, level);
    lemma_gain(level, g, k, d);
    let f = |v: int|
        if v != k && g[v] == d {
            pull(level, k, v)
        } else {
            0
        };
    assert(gain(level, g, k, d) == added(n as int, f));
    assert forall|v: int| 0 <= v < n && v != d implies #[trigger] f(v) == 0 by {}
    if d < n {
        lemma_added_one(n as int, d as int, f);
        if d != k {
            lemma_complete_pull(edges, n, level, k, d as int);
        }
        assert(d == 0 ==> f(0) == 0);
    } else {
        lemma_added_zero(n as int, f);
    }
}

/// In its turn a node of a complete graph joins the group that gathers.
proof fn lemma_gathers(edges: Seq<Edge>, n: nat, level: LouvainLevel, k: int)
    requires
        joins_nodes(edges, n),
        level_of(edges, n, level),
        complete(edges, n),
        2 <= n < u32::MAX,
        0 <= k < n,
    ensures
        best_group(level, gathering(n, k), k) == 1,
{
    let g = gathering(n, k);
    let len = level.row(k).len() as int;
    let m = n as int;
    assert forall|v: int| 0 <= v < n && v != k implies pull(level, k, v) == n - 1 by {
        lemma_complete_pull(edges, n, level, k, v);
    }
    let first = 1u32;
    lemma_gain(level, g, k, first);
    let one = |v: int|
        if v != k && g[v] == first {
            pull(level, k, v)
        } else {
            0
        };
    assert forall|v: int| 0 <= v < n implies #[trigger] one(v) >= 0 by {}
    if k == 0 {
        assert(g[1] == 1);
        lemma_added_term(m, one, 1);
    } else {
        assert(g[0] == 1);
        lemma_added_term(m, one, 0);
    }
    if k >= 2 {
        assert(g[0] == 1 && g[1] == 1);
        lemma_added_part(m, one, 0, 1);
    }
    assert(gain(level, g, k, 1) >= n - 1);
    assert(candidate(level, g, k, 1)) by {
        let v = if k == 0 {
            1int
        } else {
            0int
        };
        assert(joined(edges, k, v) == 1);
        lemma_joins(edges, k, v);
        assert(joins(edges, k, v) > 0);
        assert(has_link(level.row(k), v));
        let i = choose|i: int| 0 <= i < len && (#[trigger] level.row(k)[i]).0 == v;
        assert(g[level.row(k)[i].0 as int] == 1);
        assert(leads_to(level.row(k), g, 1, len));
    }
    assert forall|d: u32| #[trigger] candidate(level, g, k, d) implies gain(level, g, k, d) < gain(
        level,
        g,
        k,
        1,
    ) || (gain(level, g, k, d) == gain(level, g, k, 1) && 1 <= d) by {
        if d != 1 {
            lemma_gathers_less(edges, n, level, k, d);
        }
    }
    assert(is_best(level, g, k, 1));
    let b = best_group(level, g, k);
    assert(is_best(level, g, k, b));
    assert(candidate(level, g, k, b) && candidate(level, g, k, 1));
}

proof fn lemma_gathering(edges: Seq<Edge>, n: nat, level: LouvainLevel, k: int)
    requires
        joins_nodes(edges, n),
        level_of(edges, n, level),
        complete(edges, n),
        2 <= n < u32::MAX,
        0 <= k <= n,
    ensures
        sweep(level, alone(n), k) == gathering(n, k),
    decreases k,
{
    if k == 0 {
        assert(alone(n) =~= gathering(n, 0));
    } else {
        lemma_gathering(edges, n, level, k - 1);
        lemma_gathers(edges, n, level, k - 1);
        if k == 1 {
            let g = gathering(n, 0).update(0, 1u32);
            assert(g =~= gathering(n, 1));
        } else {
            assert(gathering(n, k - 1).update(k - 1, 1u32) =~= gathering(n, k));
        }
    }
}

/// Nodes that are all in one group stay there.
proof fn lemma_all_stay(level: LouvainLevel, group: Seq<u32>, c: u32, k: int)
    requires
        level.wf(),
        group.len() == level.n(),
        forall|u: int| 0 <= u < group.len() ==> #[trigger] group[u] == c,
        0 <= k <= level.n(),
    ensures
        sweep(level, group, k) == group,
    decreases k,
{
    if k > 0 {
        lemma_all_stay(level, group, c, k - 1);
        let x = k - 1;
        lemma_best_is_candidate(level, group, x);
        let to = best_group(level, group, x);
        if to != group[x] {
            let i = choose|i: int|
                0 <= i < level.row(x).len() && group[(#[trigger] level.row(x)[i]).0 as int] == to;
            assert(level.row(x)[i].0 < level.n());
        }
        assert(group.update(x, to) =~= group);
    }
}

proof fn lemma_complete_swept(edges: Seq<Edge>, n: nat, level: LouvainLevel, j: nat)
    requires
        joins_nodes(edges, n),
        level_of(edges, n, level),
        complete(edges, n),
        2 <= n < u32::MAX,
        j > 0,
    ensures
        sweeps(level, alone(n), j) == gathering(n, n as int),
    decreases j,
{
    if j == 1 {
        lemma_gathering(edges, n, level, n as int);
        assert(sweeps(level, alone(n), 0) == alone(n));
    } else {
        lemma_complete_swept(edges, n, level, (j - 1) as nat);
        lemma_all_stay(level, gathering(n, n as int), 1, n as int);
    }
}

/// The nodes of a lone complete graph are one community.
pub proof fn lemma_complete_graph_is_one_community(
    snap: CsrSnapshot,
    level: LouvainLevel,
    member: Seq<u32>,
    out: Seq<NodeId>,
    u: int,
    v: int,
)
    requires
        snap.wf(),
        complete(snap.edges@, snap.n()),
        level_of(snap.edges@, snap.n(), level),
        settles_as(level, alone(snap.n()), 32, member),
        out.len() == snap.n(),
        member.len() == snap.n(),
        forall|x: int|
            0 <= x < snap.n() ==> named_first(snap.dense_to_id@, member, x, #[trigger] out[x]),
        0 <= u < snap.n(),
        0 <= v < snap.n(),
    ensures
        out[u] == out[v],
{
    let (edges, n) = (snap.edges@, snap.n());
    let ids = snap.dense_to_id@;
    if n >= 2 {
        let (coarse, group) = choose|coarse: LouvainLevel, group: Seq<u32>|
            {
                &&& #[trigger] coarse_of(level, group, coarse)
                &&& renumbers(sweeps(level, alone(level.n()), 32), group, coarse.n())
                &&& if coarse.n() == level.n() {
                    member == alone(n)
                } else if coarse.n() == 1 {
                    member == compose(alone(n), group)
                } else {
                    settles_as(coarse, compose(alone(n), group), 31, member)
                }
            };
        lemma_complete_swept(edges, n, level, 32);
        let all = gathering(n, n as int);
        assert(coarse.n() == 1) by {
            assert(group[0] < coarse.n());
            if coarse.n() > 1 {
                assert(begins_at(group, 0) && begins_at(group, 1));
                let x = choose|x: int|
                    0 <= x < group.len() && #[trigger] group[x] == 0int && forall|y: int|
                        0 <= y < x ==> (#[trigger] group[y]) < 0int;
                let z = choose|z: int|
                    0 <= z < group.len() && #[trigger] group[z] == 1int && forall|y: int|
                        0 <= y < z ==> (#[trigger] group[y]) < 1int;
                assert(all[x] == all[z]);
                assert(group[x] == group[z]);
            }
        }
        assert(all[u] == all[v]);
        assert(group[u] == group[v]);
        assert(member[u] == member[v]);
    }
    assert(named_first(ids, member, u, out[u]));
    assert(named_first(ids, member, v, out[v]));
    lemma_named_parts(ids, member, out, u, v);
}

/// A community is named by the smallest node in it.
pub proof fn lemma_communities_are_named_by_their_smallest(
    snap: CsrSnapshot,
    member: Seq<u32>,
    out: Seq<NodeId>,
    u: int,
    v: int,
)
    requires
        snap.wf(),
        out.len() == snap.n(),
        member.len() == snap.n(),
        forall|x: int|
            0 <= x < snap.n() ==> named_first(snap.dense_to_id@, member, x, #[trigger] out[x]),
        0 <= u < snap.n(),
        0 <= v < snap.n(),
    ensures
        out[u] == out[v] ==> out[u] <= snap.dense_to_id@[v],
        exists|x: int|
            0 <= x < snap.n() && snap.dense_to_id@[x] == out[u] && #[trigger] out[x] == out[u],
{
    let ids = snap.dense_to_id@;
    assert(named_first(ids, member, u, out[u]));
    assert(named_first(ids, member, v, out[v]));
    let x = choose|x: int|
        0 <= x <= u && #[trigger] member[x] == member[u] && out[u] == ids[x] && forall|w: int|
            0 <= w < x ==> (#[trigger] member[w]) != member[u];
    let y = choose|y: int|
        0 <= y <= v && #[trigger] member[y] == member[v] && out[v] == ids[y] && forall|w: int|
            0 <= w < y ==> (#[trigger] member[w]) != member[v];
    if y < v {
        assert(ids[y] < ids[v]);
    }
    assert(named_first(ids, member, x, out[x]));
    lemma_named_parts(ids, member, out, x, u);
    assert(out[x] == out[u]);
}

} // verus!
