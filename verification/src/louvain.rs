//! Communities by the Louvain method, with exact weights.

use vstd::prelude::*;

use crate::analytics::Stamps;
use crate::csr::{entering, leaving, CsrSnapshot, Edge};
use crate::schema::NodeId;
use crate::sums::{bit, count, lemma_sum_ext, lemma_sum_take, sum, upto};
use crate::typed_adj::{nodes_ascending, sort_nodes};

verus! {

/// The most levels, and the most sweeps of one level.
pub const LOUVAIN_MAX_LEVELS: usize = 32;

/// One level of the hierarchy: an undirected graph with weights. Every link is
/// in the rows of both its ends. A loop is held apart, by what it adds to the
/// degree of its node: twice its weight.
pub struct LouvainLevel {
    pub links: Vec<Vec<(u32, u64)>>,
    pub self_weight: Vec<u64>,
    pub degree: Vec<u64>,
    pub total: u64,
}

/// The weight of the first `k` links of a row.
pub open spec fn row_weight(row: Seq<(u32, u64)>, k: int) -> nat
    decreases k,
{
    if k <= 0 {
        0
    } else {
        row_weight(row, k - 1) + row[k - 1].1 as nat
    }
}

/// The weight of those among them that lead into the group `d`.
pub open spec fn link_to(row: Seq<(u32, u64)>, group: Seq<u32>, d: u32, k: int) -> nat
    decreases k,
{
    if k <= 0 {
        0
    } else {
        link_to(row, group, d, k - 1) + (if group[row[k - 1].0 as int] == d {
            row[k - 1].1 as nat
        } else {
            0
        })
    }
}

/// The numbers of a list, added up to position `k`.
pub open spec fn total_to(s: Seq<u64>, k: int) -> nat
    decreases k,
{
    if k <= 0 {
        0
    } else {
        total_to(s, k - 1) + s[k - 1] as nat
    }
}

impl LouvainLevel {
    pub open spec fn n(&self) -> nat {
        self.degree@.len()
    }

    pub open spec fn row(&self, u: int) -> Seq<(u32, u64)> {
        self.links@[u]@
    }

    pub open spec fn wf(&self) -> bool {
        let n = self.n() as int;
        &&& n < u32::MAX
        &&& self.links@.len() == n
        &&& self.self_weight@.len() == n
        &&& forall|u: int, k: int|
            #![trigger self.row(u)[k]]
            0 <= u < n && 0 <= k < self.row(u).len() ==> self.row(u)[k].0 < n
                && self.row(u)[k].0 != u && self.row(u)[k].1 > 0
        &&& forall|u: int|
            0 <= u < n ==> (#[trigger] self.degree@[u]) == row_weight(
                self.row(u),
                self.row(u).len() as int,
            ) + self.self_weight@[u]
        &&& self.total == total_to(self.degree@, n)
        &&& self.total < 0x4000_0000_0000_0000
    }
}

proof fn lemma_total_part(s: Seq<u64>, i: int, k: int)
    requires
        0 <= i < k <= s.len(),
    ensures
        s[i] <= total_to(s, k),
        total_to(s, i) <= total_to(s, k),
    decreases k,
{
    if i < k - 1 {
        lemma_total_part(s, i, k - 1);
    }
}

proof fn lemma_link_below(row: Seq<(u32, u64)>, group: Seq<u32>, d: u32, k: int)
    requires
        0 <= k,
    ensures
        link_to(row, group, d, k) <= row_weight(row, k),
    decreases k,
{
    if k > 0 {
        lemma_link_below(row, group, d, k - 1);
    }
}

proof fn lemma_weight_ascends(row: Seq<(u32, u64)>, a: int, b: int)
    requires
        0 <= a <= b,
    ensures
        row_weight(row, a) <= row_weight(row, b),
    decreases b,
{
    if a < b {
        lemma_weight_ascends(row, a, b - 1);
    }
}

/// The degrees of the members of a group, but for `u`, up to node `k`.
pub open spec fn others_to(degree: Seq<u64>, group: Seq<u32>, c: u32, u: int, k: int) -> nat
    decreases k,
{
    if k <= 0 {
        0
    } else {
        others_to(degree, group, c, u, k - 1) + (if group[k - 1] == c && k - 1 != u {
            degree[k - 1] as nat
        } else {
            0
        })
    }
}

/// What a node gains by joining a group, but for what is the same for all: the
/// weight of its links into the group, against the weight that is expected.
/// Both are multiplied by the weight of all links.
pub open spec fn gain(level: LouvainLevel, group: Seq<u32>, u: int, c: u32) -> int {
    link_to(level.row(u), group, c, level.row(u).len() as int) * level.total - others_to(
        level.degree@,
        group,
        c,
        u,
        level.n() as int,
    ) * level.degree@[u]
}

/// Whether a node may join a group: it is its own, or one that a link leads to.
pub open spec fn candidate(level: LouvainLevel, group: Seq<u32>, u: int, c: u32) -> bool {
    c == group[u] || leads_to(level.row(u), group, c, level.row(u).len() as int)
}

/// Whether one of the first `k` links leads into a group.
pub open spec fn leads_to(row: Seq<(u32, u64)>, group: Seq<u32>, c: u32, k: int) -> bool {
    exists|i: int| 0 <= i < k && group[(#[trigger] row[i]).0 as int] == c
}

/// Whether no candidate is better than `c`, and none as good is smaller.
pub open spec fn is_best(level: LouvainLevel, group: Seq<u32>, u: int, c: u32) -> bool {
    &&& candidate(level, group, u, c)
    &&& forall|d: u32| #[trigger]
        candidate(level, group, u, d) ==> gain(level, group, u, d) < gain(level, group, u, c) || (
        gain(level, group, u, d) == gain(level, group, u, c) && c <= d)
}

/// The group that a node joins.
pub open spec fn best_group(level: LouvainLevel, group: Seq<u32>, u: int) -> u32 {
    choose|c: u32| is_best(level, group, u, c)
}

/// The groups after the first `k` nodes have moved, each in its turn.
pub open spec fn sweep(level: LouvainLevel, group: Seq<u32>, k: int) -> Seq<u32>
    decreases k,
{
    if k <= 0 {
        group
    } else {
        let before = sweep(level, group, k - 1);
        before.update(k - 1, best_group(level, before, k - 1))
    }
}

/// The groups after `j` sweeps over all nodes.
pub open spec fn sweeps(level: LouvainLevel, group: Seq<u32>, j: nat) -> Seq<u32>
    decreases j,
{
    if j == 0 {
        group
    } else {
        sweep(level, sweeps(level, group, (j - 1) as nat), level.n() as int)
    }
}

/// Every node in a group of its own.
pub open spec fn alone(n: nat) -> Seq<u32> {
    Seq::new(n, |u: int| u as u32)
}

proof fn lemma_sweeps_fixed(level: LouvainLevel, group: Seq<u32>, i: nat, j: nat)
    requires
        i <= j,
        sweep(level, sweeps(level, group, i), level.n() as int) == sweeps(level, group, i),
    ensures
        sweeps(level, group, j) == sweeps(level, group, i),
    decreases j,
{
    if i < j {
        lemma_sweeps_fixed(level, group, i, (j - 1) as nat);
    }
}

proof fn lemma_best_unique(level: LouvainLevel, group: Seq<u32>, u: int, c: u32)
    requires
        is_best(level, group, u, c),
    ensures
        best_group(level, group, u) == c,
{
    let b = best_group(level, group, u);
    assert(is_best(level, group, u, b));
    assert(candidate(level, group, u, b) && candidate(level, group, u, c));
}

/// The degrees of the members of a group are those but for `u`, with that of `u`
/// where it is a member.
pub open spec fn members_to(degree: Seq<u64>, group: Seq<u32>, c: u32, k: int) -> nat
    decreases k,
{
    if k <= 0 {
        0
    } else {
        members_to(degree, group, c, k - 1) + (if group[k - 1] == c {
            degree[k - 1] as nat
        } else {
            0
        })
    }
}

proof fn lemma_members(degree: Seq<u64>, group: Seq<u32>, c: u32, u: int, k: int)
    requires
        0 <= k <= degree.len(),
        0 <= u,
    ensures
        members_to(degree, group, c, k) == others_to(degree, group, c, u, k) + (if u < k
            && group[u] == c {
            degree[u] as nat
        } else {
            0
        }),
        members_to(degree, group, c, k) <= total_to(degree, k),
    decreases k,
{
    if k > 0 {
        lemma_members(degree, group, c, u, k - 1);
    }
}

proof fn lemma_members_moved(degree: Seq<u64>, group: Seq<u32>, u: int, to: u32, c: u32, k: int)
    requires
        0 <= k <= degree.len(),
        group.len() == degree.len(),
        0 <= u < degree.len(),
    ensures
        members_to(degree, group.update(u, to), c, k) == others_to(degree, group, c, u, k) + (if u
            < k && to == c {
            degree[u] as nat
        } else {
            0
        }),
    decreases k,
{
    if k > 0 {
        lemma_members_moved(degree, group, u, to, c, k - 1);
    }
}

/// The weights of a node's links into each group, and the groups that they lead
/// into.
fn gather_links(
    level: &LouvainLevel,
    group: &Vec<u32>,
    u: usize,
    link: &mut Vec<u64>,
    stamps: &mut Stamps,
) -> (found: Vec<u32>)
    requires
        level.wf(),
        group@.len() == level.n(),
        u < level.n(),
        forall|v: int| 0 <= v < group@.len() ==> (#[trigger] group@[v]) < level.n(),
        old(link)@.len() == level.n(),
        old(stamps).wf(level.n()),
        old(stamps).token < u64::MAX,
    ensures
        final(link)@.len() == level.n(),
        final(stamps).wf(level.n()),
        final(stamps).token == old(stamps).token + 1,
        forall|c: u32| #[trigger]
            found@.contains(c) <==> leads_to(
                level.row(u as int),
                group@,
                c,
                level.row(u as int).len() as int,
            ),
        forall|c: int|
            0 <= c < level.n() ==> #[trigger] final(stamps).has(c) == leads_to(
                level.row(u as int),
                group@,
                c as u32,
                level.row(u as int).len() as int,
            ),
        forall|c: int|
            0 <= c < level.n() && final(stamps).has(c) ==> (#[trigger] final(link)@[c]) == link_to(
                level.row(u as int),
                group@,
                c as u32,
                level.row(u as int).len() as int,
            ),
{
    let n: usize = level.degree.len();
    let ghost row = level.row(u as int);
    stamps.token = stamps.token + 1;
    let mut found: Vec<u32> = Vec::new();
    let mut k: usize = 0;
    proof {
        assert forall|c: int| 0 <= c < n implies !#[trigger] stamps.has(c) by {
            assert(old(stamps).marks@[c] <= old(stamps).token);
        }
        lemma_total_part(level.degree@, u as int, n as int);
    }
    while k < level.links[u].len()
        invariant
            level.wf(),
            n == level.n(),
            group@.len() == n,
            u < n,
            row == level.row(u as int),
            row_weight(row, row.len() as int) <= level.total,
            forall|v: int| 0 <= v < group@.len() ==> (#[trigger] group@[v]) < n,
            k <= row.len(),
            link@.len() == n,
            stamps.wf(n as nat),
            stamps.token == old(stamps).token + 1,
            forall|c: u32| #[trigger]
                found@.contains(c) <==> leads_to(row, group@, c, k as int),
            forall|c: int|
                0 <= c < n ==> #[trigger] stamps.has(c) == leads_to(
                    row,
                    group@,
                    c as u32,
                    k as int,
                ),
            forall|c: int|
                0 <= c < n && stamps.has(c) ==> (#[trigger] link@[c]) == link_to(
                    row,
                    group@,
                    c as u32,
                    k as int,
                ),
        decreases row.len() - k,
    {
        let (v, w): (u32, u64) = level.links[u][k];
        assert(row[k as int] == (v, w));
        assert(level.row(u as int)[k as int].0 < n);
        let c: usize = group[v as usize] as usize;
        let ghost had = *stamps;
        let ghost before = link@;
        let ghost listed = found@;
        let fresh: bool = stamps.marks[c] != stamps.token;
        proof {
            lemma_link_below(row, group@, c as u32, k + 1);
            lemma_weight_ascends(row, k + 1, row.len() as int);
            if fresh {
                assert(!had.has(c as int));
                lemma_no_link(row, group@, c as u32, k as int);
            } else {
                assert(had.has(c as int));
            }
        }
        if fresh {
            stamps.marks.set(c, stamps.token);
            link.set(c, w);
            found.push(c as u32);
        } else {
            link.set(c, link[c] + w);
        }
        proof {
            assert forall|d: u32|
                leads_to(row, group@, d, k + 1) <==> #[trigger] leads_to(row, group@, d, k as int)
                    || d == c by {
                if leads_to(row, group@, d, k as int) {
                    let i = choose|i: int| 0 <= i < k && group@[(#[trigger] row[i]).0 as int] == d;
                    assert(0 <= i < k + 1 && group@[row[i].0 as int] == d);
                }
            }
            assert forall|d: u32| #[trigger] found@.contains(d) <==> leads_to(
                row,
                group@,
                d,
                k + 1,
            ) by {
                assert(listed.contains(d) <==> leads_to(row, group@, d, k as int));
                if listed.contains(d) {
                    let i = listed.index_of(d);
                    assert(found@[i] == d);
                }
                if fresh {
                    assert(found@[listed.len() as int] == c);
                } else {
                    assert(leads_to(row, group@, c as u32, k as int));
                }
            }
            assert forall|d: int| 0 <= d < n implies #[trigger] stamps.has(d) == leads_to(
                row,
                group@,
                d as u32,
                k + 1,
            ) by {
                assert(had.has(d) == leads_to(row, group@, d as u32, k as int));
            }
            assert forall|d: int| 0 <= d < n && stamps.has(d) implies (#[trigger] link@[d])
                == link_to(row, group@, d as u32, k + 1) by {
                if d != c {
                    assert(had.has(d));
                    assert(link@[d] == before[d]);
                }
            }
        }
        k = k + 1;
    }
    found
}

proof fn lemma_no_link(row: Seq<(u32, u64)>, group: Seq<u32>, c: u32, k: int)
    requires
        0 <= k <= row.len(),
        !leads_to(row, group, c, k),
    ensures
        link_to(row, group, c, k) == 0,
    decreases k,
{
    if k > 0 {
        assert(group[row[k - 1].0 as int] != c);
        assert(!leads_to(row, group, c, k - 1)) by {
            if leads_to(row, group, c, k - 1) {
                let i = choose|i: int| 0 <= i < k - 1 && group[(#[trigger] row[i]).0 as int] == c;
                assert(0 <= i < k && group[row[i].0 as int] == c);
            }
        }
        lemma_no_link(row, group, c, k - 1);
    }
}

/// `x * total - y * k` as a number.
fn weigh(x: u64, total: u64, y: u64, k: u64) -> (g: i128)
    requires
        x < 0x4000_0000_0000_0000,
        total < 0x4000_0000_0000_0000,
        y < 0x4000_0000_0000_0000,
        k < 0x4000_0000_0000_0000,
    ensures
        g == x * total - y * k,
{
    assert(0 <= x * total <= 0x4000_0000_0000_0000 * 0x4000_0000_0000_0000) by (nonlinear_arith)
        requires
            0 <= x < 0x4000_0000_0000_0000,
            0 <= total < 0x4000_0000_0000_0000,
    ;
    assert(0 <= y * k <= 0x4000_0000_0000_0000 * 0x4000_0000_0000_0000) by (nonlinear_arith)
        requires
            0 <= y < 0x4000_0000_0000_0000,
            0 <= k < 0x4000_0000_0000_0000,
    ;
    (x as i128) * (total as i128) - (y as i128) * (k as i128)
}

/// The group that a node joins, where `sigma` are the degrees of the groups
/// without it.
fn choose_group(
    level: &LouvainLevel,
    group: &Vec<u32>,
    u: usize,
    sigma: &Vec<u64>,
    link: &mut Vec<u64>,
    stamps: &mut Stamps,
) -> (best: u32)
    requires
        level.wf(),
        group@.len() == level.n(),
        u < level.n(),
        forall|v: int| 0 <= v < group@.len() ==> (#[trigger] group@[v]) < level.n(),
        sigma@.len() == level.n(),
        forall|c: int|
            0 <= c < level.n() ==> (#[trigger] sigma@[c]) == others_to(
                level.degree@,
                group@,
                c as u32,
                u as int,
                level.n() as int,
            ),
        old(link)@.len() == level.n(),
        old(stamps).wf(level.n()),
        old(stamps).token < u64::MAX,
    ensures
        final(link)@.len() == level.n(),
        final(stamps).wf(level.n()),
        final(stamps).token == old(stamps).token + 1,
        best == best_group(*level, group@, u as int),
        best < level.n(),
{
    let n: usize = level.degree.len();
    let ghost row = level.row(u as int);
    let found: Vec<u32> = gather_links(level, group, u, link, stamps);
    let origin: u32 = group[u];
    let k_u: u64 = level.degree[u];
    proof {
        lemma_total_part(level.degree@, u as int, n as int);
        lemma_members(level.degree@, group@, origin, u as int, n as int);
        lemma_link_below(row, group@, origin, row.len() as int);
        assert(stamps.has(origin as int) == leads_to(
            row,
            group@,
            origin,
            row.len() as int,
        ));
        if !stamps.has(origin as int) {
            lemma_no_link(row, group@, origin, row.len() as int);
        }
    }
    let mut best: u32 = origin;
    let to_origin: u64 = if stamps.marks[origin as usize] == stamps.token {
        link[origin as usize]
    } else {
        0
    };
    assert(to_origin == link_to(row, group@, origin, row.len() as int)) by {
        if stamps.has(origin as int) {
            assert(link@[origin as int] == link_to(row, group@, origin, row.len() as int));
        }
    }
    let mut most: i128 = weigh(to_origin, level.total, sigma[origin as usize], k_u);
    let mut i: usize = 0;
    while i < found.len()
        invariant
            level.wf(),
            n == level.n(),
            group@.len() == n,
            u < n,
            row == level.row(u as int),
            origin == group@[u as int],
            origin < n,
            k_u == level.degree@[u as int],
            k_u <= level.total,
            row_weight(row, row.len() as int) <= level.total,
            sigma@.len() == n,
            forall|v: int| 0 <= v < group@.len() ==> (#[trigger] group@[v]) < n,
            forall|c: int|
                0 <= c < n ==> (#[trigger] sigma@[c]) == others_to(
                    level.degree@,
                    group@,
                    c as u32,
                    u as int,
                    n as int,
                ),
            link@.len() == n,
            stamps.wf(n as nat),
            forall|c: u32| #[trigger]
                found@.contains(c) <==> leads_to(row, group@, c, row.len() as int),
            forall|c: int|
                0 <= c < n ==> #[trigger] stamps.has(c) == leads_to(
                    row,
                    group@,
                    c as u32,
                    row.len() as int,
                ),
            forall|c: int|
                0 <= c < n && stamps.has(c) ==> (#[trigger] link@[c]) == link_to(
                    row,
                    group@,
                    c as u32,
                    row.len() as int,
                ),
            i <= found@.len(),
            best < n,
            candidate(*level, group@, u as int, best),
            most == gain(*level, group@, u as int, best),
            gain(*level, group@, u as int, origin) < most || (gain(
                *level,
                group@,
                u as int,
                origin,
            ) == most && best <= origin),
            forall|j: int|
                0 <= j < i ==> gain(*level, group@, u as int, #[trigger] found@[j]) < most || (gain(
                    *level,
                    group@,
                    u as int,
                    found@[j],
                ) == most && best <= found@[j]),
        decreases found@.len() - i,
    {
        let c: u32 = found[i];
        proof {
            assert(found@.contains(c));
            let j = choose|j: int| 0 <= j < row.len() && group@[(#[trigger] row[j]).0 as int] == c;
            assert(level.row(u as int)[j].0 < n);
            assert(c < n);
            assert(stamps.has(c as int));
            lemma_link_below(row, group@, c, row.len() as int);
            lemma_members(level.degree@, group@, c, u as int, n as int);
            assert(candidate(*level, group@, u as int, c));
            assert(sigma@[c as int] == others_to(
                level.degree@,
                group@,
                c,
                u as int,
                n as int,
            ));
            assert(link@[c as int] == link_to(row, group@, c, row.len() as int));
        }
        let g: i128 = weigh(link[c as usize], level.total, sigma[c as usize], k_u);
        if g > most || (g == most && c < best) {
            best = c;
            most = g;
        }
        i = i + 1;
    }
    proof {
        assert forall|d: u32| #[trigger]
            candidate(*level, group@, u as int, d) implies gain(*level, group@, u as int, d) < gain(
            *level,
            group@,
            u as int,
            best,
        ) || (gain(*level, group@, u as int, d) == gain(*level, group@, u as int, best) && best
            <= d) by {
            if d != origin {
                assert(found@.contains(d));
                let j = found@.index_of(d);
                assert(found@[j] == d);
            }
        }
        assert(is_best(*level, group@, u as int, best));
        lemma_best_unique(*level, group@, u as int, best);
    }
    best
}

impl LouvainLevel {
    /// Moves each node in its turn into the group where it gains most, until a
    /// sweep moves none or the most sweeps are done.
    pub fn local_moving(&self) -> (group: Vec<u32>)
        requires
            self.wf(),
        ensures
            group@ == sweeps(*self, alone(self.n()), 32),
            group@.len() == self.n(),
            forall|v: int| 0 <= v < group@.len() ==> (#[trigger] group@[v]) < self.n(),
    {
        let n: usize = self.degree.len();
        let mut group: Vec<u32> = Vec::new();
        let mut sigma: Vec<u64> = Vec::new();
        let mut link: Vec<u64> = Vec::new();
        let mut v: usize = 0;
        while v < n
            invariant
                self.wf(),
                n == self.n(),
                v <= n,
                group@.len() == v,
                sigma@ == self.degree@.take(v as int),
                link@.len() == v,
                forall|x: int| 0 <= x < v ==> (#[trigger] group@[x]) == x,
            decreases n - v,
        {
            group.push(v as u32);
            sigma.push(self.degree[v]);
            link.push(0);
            assert(sigma@ =~= self.degree@.take(v + 1));
            v = v + 1;
        }
        assert(sigma@ =~= self.degree@);
        assert(group@ =~= alone(n as nat));
        let ghost first = group@;
        proof {
            assert forall|c: int| 0 <= c < n implies (#[trigger] sigma@[c]) == members_to(
                self.degree@,
                group@,
                c as u32,
                n as int,
            ) by {
                lemma_members_alone(self.degree@, group@, c, n as int);
            }
        }
        let mut stamps: Stamps = Stamps::new(n);
        let mut round: usize = 0;
        while round < LOUVAIN_MAX_LEVELS
            invariant
                self.wf(),
                n == self.n(),
                round <= 32,
                first == alone(n as nat),
                group@.len() == n,
                group@ == sweeps(*self, first, round as nat),
                forall|x: int| 0 <= x < n ==> (#[trigger] group@[x]) < n,
                sigma@.len() == n,
                forall|c: int|
                    0 <= c < n ==> (#[trigger] sigma@[c]) == members_to(
                        self.degree@,
                        group@,
                        c as u32,
                        n as int,
                    ),
                link@.len() == n,
                stamps.wf(n as nat),
                stamps.token == round * n,
            decreases 32 - round,
        {
            let ghost start = group@;
            let mut moved: bool = false;
            let mut u: usize = 0;
            assert(round * n <= 32 * 0xffff_ffff) by (nonlinear_arith)
                requires
                    round <= 32,
                    n <= 0xffff_ffff,
            ;
            while u < n
                invariant
                    self.wf(),
                    n == self.n(),
                    round < 32,
                    u <= n,
                    start.len() == n,
                    group@.len() == n,
                    group@ == sweep(*self, start, u as int),
                    !moved ==> group@ == start,
                    forall|x: int| 0 <= x < n ==> (#[trigger] group@[x]) < n,
                    sigma@.len() == n,
                    forall|c: int|
                        0 <= c < n ==> (#[trigger] sigma@[c]) == members_to(
                            self.degree@,
                            group@,
                            c as u32,
                            n as int,
                        ),
                    link@.len() == n,
                    stamps.wf(n as nat),
                    stamps.token == round * n + u,
                    round * n <= 32 * 0xffff_ffff,
                decreases n - u,
            {
                let origin: u32 = group[u];
                let k_u: u64 = self.degree[u];
                let ghost before = group@;
                let ghost had = sigma@;
                proof {
                    assert(group@[u as int] < n);
                    lemma_members(self.degree@, group@, origin, u as int, n as int);
                }
                sigma.set(origin as usize, sigma[origin as usize] - k_u);
                proof {
                    assert forall|c: int| 0 <= c < n implies (#[trigger] sigma@[c]) == others_to(
                        self.degree@,
                        group@,
                        c as u32,
                        u as int,
                        n as int,
                    ) by {
                        lemma_members(self.degree@, group@, c as u32, u as int, n as int);
                        assert(had[c] == members_to(self.degree@, group@, c as u32, n as int));
                    }
                }
                let best: u32 = choose_group(self, &group, u, &sigma, &mut link, &mut stamps);
                let ghost out = sigma@;
                proof {
                    lemma_members_moved(
                        self.degree@,
                        before,
                        u as int,
                        best,
                        best,
                        n as int,
                    );
                    lemma_members(
                        self.degree@,
                        before.update(u as int, best),
                        best,
                        u as int,
                        n as int,
                    );
                }
                sigma.set(best as usize, sigma[best as usize] + k_u);
                group.set(u, best);
                if best != origin {
                    moved = true;
                }
                proof {
                    assert forall|c: int| 0 <= c < n implies (#[trigger] sigma@[c]) == members_to(
                        self.degree@,
                        group@,
                        c as u32,
                        n as int,
                    ) by {
                        lemma_members_moved(
                            self.degree@,
                            before,
                            u as int,
                            best,
                            c as u32,
                            n as int,
                        );
                        assert(out[c] == others_to(
                            self.degree@,
                            before,
                            c as u32,
                            u as int,
                            n as int,
                        ));
                    }
                    if best == origin {
                        assert(group@ =~= before);
                    }
                }
                u = u + 1;
            }
            assert(round * n + n == (round + 1) * n) by (nonlinear_arith);
            if !moved {
                proof {
                    lemma_sweeps_fixed(*self, first, round as nat, 32);
                }
                return group;
            }
            round = round + 1;
        }
        group
    }
}

proof fn lemma_members_alone(degree: Seq<u64>, group: Seq<u32>, c: int, k: int)
    requires
        0 <= k <= degree.len(),
        degree.len() < u32::MAX,
        group.len() == degree.len(),
        forall|x: int| 0 <= x < group.len() ==> (#[trigger] group[x]) == x,
        0 <= c < degree.len(),
    ensures
        members_to(degree, group, c as u32, k) == (if c < k {
            degree[c] as nat
        } else {
            0
        }),
    decreases k,
{
    if k > 0 {
        lemma_members_alone(degree, group, c, k - 1);
        assert(group[k - 1] == k - 1);
    }
}

proof fn lemma_total_update(s: Seq<u64>, i: int, x: u64, k: int)
    requires
        0 <= i < s.len(),
        0 <= k <= s.len(),
    ensures
        i < k ==> total_to(s.update(i, x), k) + s[i] == total_to(s, k) + x,
        i >= k ==> total_to(s.update(i, x), k) == total_to(s, k),
    decreases k,
{
    if k > 0 {
        lemma_total_update(s, i, x, k - 1);
    }
}

proof fn lemma_total_gap(s: Seq<u64>, lo: int, hi: int)
    requires
        0 <= lo <= hi <= s.len(),
        forall|v: int| lo <= v < hi ==> (#[trigger] s[v]) == 0,
    ensures
        total_to(s, hi) == total_to(s, lo),
    decreases hi - lo,
{
    if lo < hi {
        lemma_total_gap(s, lo, hi - 1);
        assert(s[hi - 1] == 0);
    }
}

/// What has been added up for each node, and the nodes that have something.
pub open spec fn adds_up(acc: Seq<u64>, seen: Seq<u32>) -> bool {
    &&& acc.len() < u32::MAX
    &&& seen.no_duplicates()
    &&& forall|v: u32| #[trigger]
        seen.contains(v) <==> v < acc.len() && acc[v as int] > 0
}

/// Adds a weight for a node.
fn put(acc: &mut Vec<u64>, seen: &mut Vec<u32>, v: u32, w: u64)
    requires
        adds_up(old(acc)@, old(seen)@),
        v < old(acc)@.len(),
        w > 0,
        total_to(old(acc)@, old(acc)@.len() as int) + w <= u64::MAX,
    ensures
        adds_up(final(acc)@, final(seen)@),
        final(acc)@ == old(acc)@.update(v as int, (old(acc)@[v as int] + w) as u64),
        total_to(final(acc)@, final(acc)@.len() as int) == total_to(
            old(acc)@,
            old(acc)@.len() as int,
        ) + w,
{
    let ghost before = acc@;
    let ghost had = seen@;
    let n: Ghost<int> = Ghost(acc@.len() as int);
    proof {
        lemma_total_part(before, v as int, n@);
        lemma_total_update(before, v as int, (before[v as int] + w) as u64, n@);
    }
    let fresh: bool = acc[v as usize] == 0;
    if fresh {
        assert(!seen@.contains(v));
        seen.push(v);
    }
    acc.set(v as usize, acc[v as usize] + w);
    proof {
        assert forall|x: u32| #[trigger] seen@.contains(x) <==> x < acc@.len() && acc@[x as int]
            > 0 by {
            assert(had.contains(x) <==> x < before.len() && before[x as int] > 0);
            if had.contains(x) {
                let j = had.index_of(x);
                assert(seen@[j] == x);
            }
            if fresh {
                assert(seen@[had.len() as int] == v);
            }
            if seen@.contains(x) && x != v {
                let j = seen@.index_of(x);
                assert(seen@[j] == x);
                assert(had[j] == x);
            }
        }
        if fresh {
            assert forall|i: int, j: int|
                0 <= i < seen@.len() && 0 <= j < seen@.len() && i != j implies seen@[i]
                != seen@[j] by {
                if i == had.len() {
                    assert(had[j] == seen@[j] && had.contains(had[j]));
                } else if j == had.len() {
                    assert(had[i] == seen@[i] && had.contains(had[i]));
                } else {
                    assert(had[i] == seen@[i] && had[j] == seen@[j]);
                }
            }
        }
    }
}

/// A row holds what was added up: ascending by node, without zeros.
pub open spec fn row_of(row: Seq<(u32, u64)>, acc: Seq<u64>) -> bool {
    &&& forall|i: int, j: int| 0 <= i < j < row.len() ==> row[i].0 < row[j].0
    &&& forall|i: int|
        0 <= i < row.len() ==> (#[trigger] row[i]).0 < acc.len() && row[i].1 == acc[row[i].0 as int]
            && row[i].1 > 0
    &&& forall|v: int|
        0 <= v < acc.len() && (#[trigger] acc[v]) > 0 ==> exists|i: int|
            0 <= i < row.len() && (#[trigger] row[i]).0 == v
}

/// Makes a row of what was added up, and starts anew.
fn flush(acc: &mut Vec<u64>, seen: &mut Vec<u32>) -> (row: Vec<(u32, u64)>)
    requires
        adds_up(old(acc)@, old(seen)@),
    ensures
        row_of(row@, old(acc)@),
        row_weight(row@, row@.len() as int) == total_to(old(acc)@, old(acc)@.len() as int),
        final(seen)@.len() == 0,
        final(acc)@.len() == old(acc)@.len(),
        forall|v: int| 0 <= v < final(acc)@.len() ==> (#[trigger] final(acc)@[v]) == 0,
{
    let ghost sums = acc@;
    let ghost n = acc@.len() as int;
    let ghost listed = seen@;
    sort_nodes(seen);
    proof {
        assert forall|v: u32| #[trigger] seen@.contains(v) <==> v < n && sums[v as int] > 0 by {
            assert(seen@.to_set().contains(v) <==> seen@.contains(v));
            assert(listed.to_set().contains(v) <==> listed.contains(v));
        }
    }
    let mut row: Vec<(u32, u64)> = Vec::new();
    let mut done: Ghost<int> = Ghost(0);
    let mut i: usize = 0;
    while i < seen.len()
        invariant
            n == sums.len(),
            n < u32::MAX,
            nodes_ascending(seen@),
            forall|v: u32| #[trigger] seen@.contains(v) <==> v < n && sums[v as int] > 0,
            i <= seen@.len(),
            acc@.len() == n,
            forall|v: int|
                0 <= v < n ==> (#[trigger] acc@[v]) == (if seen@.take(i as int).contains(v as u32) {
                    0
                } else {
                    sums[v]
                }),
            row@.len() == i,
            forall|j: int|
                0 <= j < i ==> (#[trigger] row@[j]) == (seen@[j], sums[seen@[j] as int]),
            0 <= done@ <= n,
            done@ == (if i == 0 {
                0
            } else {
                seen@[i - 1] + 1
            }),
            row_weight(row@, i as int) == total_to(sums, done@),
        decreases seen@.len() - i,
    {
        let v: u32 = seen[i];
        let ghost before = row@;
        let ghost had = acc@;
        proof {
            assert(seen@.contains(v));
            assert(done@ <= v) by {
                if i > 0 {
                    assert(seen@[i - 1] < seen@[i as int]);
                }
            }
            assert forall|x: int| done@ <= x < v implies (#[trigger] sums[x]) == 0 by {
                if sums[x] > 0 {
                    assert(seen@.contains(x as u32));
                    let j = seen@.index_of(x as u32);
                    assert(seen@[j] == x);
                    if j < i - 1 {
                        assert(seen@[j] < seen@[i - 1]);
                    } else if j > i {
                        assert(seen@[i as int] < seen@[j]);
                    }
                }
            }
            lemma_total_gap(sums, done@, v as int);
            assert(!seen@.take(i as int).contains(v)) by {
                if seen@.take(i as int).contains(v) {
                    let j = seen@.take(i as int).index_of(v);
                    assert(seen@[j] < seen@[i as int]);
                }
            }
        }
        row.push((v, acc[v as usize]));
        acc.set(v as usize, 0);
        proof {
            lemma_weight_same(before, row@, i as int);
            assert(row@[i as int] == (v, sums[v as int]));
            let (a, b) = (seen@.take(i as int), seen@.take(i + 1));
            assert forall|x: int| 0 <= x < n implies (#[trigger] acc@[x]) == (if b.contains(
                x as u32,
            ) {
                0
            } else {
                sums[x]
            }) by {
                let y = x as u32;
                if a.contains(y) {
                    let j = a.index_of(y);
                    assert(b[j] == y);
                }
                assert(b[i as int] == v);
                if b.contains(y) {
                    let j = b.index_of(y);
                    if j < i {
                        assert(a[j] == y);
                    }
                }
                assert(had[x] == (if a.contains(y) {
                    0
                } else {
                    sums[x]
                }));
            }
            assert forall|j: int| 0 <= j < i + 1 implies (#[trigger] row@[j]) == (
                seen@[j],
                sums[seen@[j] as int],
            ) by {
                if j < i {
                    assert(row@[j] == before[j]);
                }
            }
        }
        done = Ghost(v + 1);
        i = i + 1;
    }
    proof {
        assert(seen@.take(i as int) =~= seen@);
        assert forall|x: int| done@ <= x < n implies (#[trigger] sums[x]) == 0 by {
            if sums[x] > 0 {
                assert(seen@.contains(x as u32));
                let j = seen@.index_of(x as u32);
                assert(seen@[j] == x);
                if j < i - 1 {
                    assert(seen@[j] < seen@[i - 1]);
                }
            }
        }
        lemma_total_gap(sums, done@, n);
        assert forall|v: int| 0 <= v < n implies (#[trigger] acc@[v]) == 0 by {
            assert(seen@.contains(v as u32) <==> sums[v] > 0);
        }
        assert(row_of(row@, sums)) by {
            assert forall|a: int, b: int| 0 <= a < b < row@.len() implies row@[a].0 < row@[b].0 by {
                assert(row@[a] == (seen@[a], sums[seen@[a] as int]));
                assert(row@[b] == (seen@[b], sums[seen@[b] as int]));
                assert(seen@[a] < seen@[b]);
            }
            assert forall|a: int| 0 <= a < row@.len() implies (#[trigger] row@[a]).0 < n
                && row@[a].1 == sums[row@[a].0 as int] && row@[a].1 > 0 by {
                assert(row@[a] == (seen@[a], sums[seen@[a] as int]));
                assert(seen@.contains(seen@[a]));
            }
            assert forall|v: int| 0 <= v < n && (#[trigger] sums[v]) > 0 implies exists|a: int|
                0 <= a < row@.len() && (#[trigger] row@[a]).0 == v by {
                assert(seen@.contains(v as u32));
                let j = seen@.index_of(v as u32);
                assert(row@[j] == (seen@[j], sums[seen@[j] as int]));
            }
        }
    }
    seen.clear();
    row
}

proof fn lemma_weight_same(a: Seq<(u32, u64)>, b: Seq<(u32, u64)>, k: int)
    requires
        0 <= k <= a.len(),
        k <= b.len(),
        forall|i: int| 0 <= i < k ==> a[i] == b[i],
    ensures
        row_weight(a, k) == row_weight(b, k),
    decreases k,
{
    if k > 0 {
        lemma_weight_same(a, b, k - 1);
    }
}

/// The edges into a node.
pub open spec fn into_node(v: int) -> spec_fn(Edge) -> bool {
    |e: Edge| e.dst == v
}

/// The edges out of a node.
pub open spec fn out_of_node(v: int) -> spec_fn(Edge) -> bool {
    |e: Edge| e.src == v
}

/// How many edges join `u` with `v`, in either direction.
pub open spec fn joins(edges: Seq<Edge>, u: int, v: int) -> nat {
    count(edges.filter(leaving(u)), into_node(v)) + count(
        edges.filter(entering(u)),
        out_of_node(v),
    )
}

/// How many edges begin or end at `u`; a loop does both.
pub open spec fn ends_at(edges: Seq<Edge>, u: int) -> nat {
    edges.filter(leaving(u)).len() + edges.filter(entering(u)).len()
}

/// A level is that of a graph: its nodes are linked by as many edges as join
/// them, each row in ascending order of the nodes, and their degrees are how many edges
/// begin or end at them.
pub open spec fn level_of(edges: Seq<Edge>, n: nat, level: LouvainLevel) -> bool {
    &&& level.wf()
    &&& level.n() == n
    &&& forall|u: int, i: int, j: int|
        #![trigger level.row(u)[i], level.row(u)[j]]
        0 <= u < n && 0 <= i < j < level.row(u).len() ==> level.row(u)[i].0 < level.row(u)[j].0
    &&& forall|u: int, k: int|
        #![trigger level.row(u)[k]]
        0 <= u < n && 0 <= k < level.row(u).len() ==> level.row(u)[k].1 == joins(
            edges,
            u,
            level.row(u)[k].0 as int,
        )
    &&& forall|u: int, v: int|
        0 <= u < n && 0 <= v < n && u != v && #[trigger] joins(edges, u, v) > 0 ==> has_link(
            level.row(u),
            v,
        )
    &&& forall|u: int| 0 <= u < n ==> (#[trigger] level.degree@[u]) == ends_at(edges, u)
    &&& level.total == 2 * edges.len()
}

/// Whether a row has a link to a node.
pub open spec fn has_link(row: Seq<(u32, u64)>, v: int) -> bool {
    exists|i: int| 0 <= i < row.len() && (#[trigger] row[i]).0 == v
}

proof fn lemma_degrees_total(edges: Seq<Edge>, n: nat, degree: Seq<u64>)
    requires
        degree.len() == n,
        forall|u: int| 0 <= u < n ==> (#[trigger] degree[u]) == ends_at(edges, u),
        forall|k: int|
            0 <= k < edges.len() ==> 0 <= (#[trigger] edges[k]).src < n && 0 <= edges[k].dst < n,
    ensures
        total_to(degree, n as int) == 2 * edges.len(),
{
    let one = |e: Edge| 1nat;
    let f = |u: int| sum(edges.filter(leaving(u)), one);
    let g = |u: int| sum(edges.filter(entering(u)), one);
    crate::sums::lemma_sum_classes(edges, n, crate::csr::source(), one);
    crate::sums::lemma_sum_classes(edges, n, crate::csr::target(), one);
    lemma_sum_ext(
        upto(n),
        f,
        |d: int| sum(edges.filter(crate::sums::of_class(crate::csr::source(), d)), one),
    );
    lemma_sum_ext(
        upto(n),
        g,
        |d: int| sum(edges.filter(crate::sums::of_class(crate::csr::target(), d)), one),
    );
    lemma_ones(edges);
    assert(sum(edges, one) == edges.len()) by {
        lemma_sum_ext(edges, one, |e: Edge| 1nat);
    }
    lemma_total_is_sum(edges, n, degree, n as int);
    crate::sums::lemma_sum_plus(upto(n), f, g);
    assert(upto(n).take(n as int) =~= upto(n));
    assert(sum(upto(n), |u: int| f(u) + g(u)) == sum(upto(n), |u: int| ends_at(edges, u))) by {
        assert forall|i: int| 0 <= i < upto(n).len() implies (|u: int| f(u) + g(u))(
            #[trigger] upto(n)[i],
        ) == (|u: int| ends_at(edges, u))(upto(n)[i]) by {
            let u = upto(n)[i];
            lemma_ones(edges.filter(leaving(u)));
            lemma_ones(edges.filter(entering(u)));
            lemma_sum_ext(edges.filter(leaving(u)), one, |e: Edge| 1nat);
            lemma_sum_ext(edges.filter(entering(u)), one, |e: Edge| 1nat);
        }
        lemma_sum_ext(upto(n), |u: int| f(u) + g(u), |u: int| ends_at(edges, u));
    }
}

proof fn lemma_ones(s: Seq<Edge>)
    ensures
        sum(s, |e: Edge| 1nat) == s.len(),
    decreases s.len(),
{
    if s.len() > 0 {
        lemma_ones(s.drop_last());
        lemma_sum_ext(s.drop_last(), |e: Edge| 1nat, |e: Edge| 1nat);
    }
}

proof fn lemma_total_is_sum(edges: Seq<Edge>, n: nat, degree: Seq<u64>, k: int)
    requires
        0 <= k <= n,
        degree.len() == n,
        forall|u: int| 0 <= u < n ==> (#[trigger] degree[u]) == ends_at(edges, u),
    ensures
        total_to(degree, k) == sum(upto(n).take(k), |u: int| ends_at(edges, u)),
    decreases k,
{
    let f = |u: int| ends_at(edges, u);
    if k > 0 {
        lemma_total_is_sum(edges, n, degree, k - 1);
        lemma_sum_take(upto(n), k - 1, f);
        assert(upto(n)[k - 1] == k - 1);
        assert(degree[k - 1] == ends_at(edges, k - 1));
    } else {
        assert(upto(n).take(0) =~= Seq::<int>::empty());
    }
}

/// The loops at a node can be counted in either of its rows.
proof fn lemma_loops(edges: Seq<Edge>, u: int)
    ensures
        count(edges.filter(leaving(u)), into_node(u)) == count(
            edges.filter(entering(u)),
            out_of_node(u),
        ),
{
    let p = into_node(u);
    let q = out_of_node(u);
    let f = |e: Edge| bit(p(e));
    let g = |e: Edge| bit(q(e));
    crate::sums::lemma_sum_filter(edges, leaving(u), f);
    crate::sums::lemma_sum_filter(edges, entering(u), g);
    lemma_sum_ext(
        edges,
        |e: Edge|
            if leaving(u)(e) {
                f(e)
            } else {
                0
            },
        |e: Edge|
            if entering(u)(e) {
                g(e)
            } else {
                0
            },
    );
}

/// Adds up the edges of a row by the nodes at their other ends, but for loops.
fn add_row(
    cols: &Vec<u32>,
    lo: usize,
    hi: usize,
    u: usize,
    acc: &mut Vec<u64>,
    seen: &mut Vec<u32>,
    row: Ghost<Seq<Edge>>,
    ends: Ghost<spec_fn(int) -> spec_fn(Edge) -> bool>,
) -> (loops: u64)
    requires
        lo <= hi <= cols@.len(),
        row@.len() == hi - lo,
        hi - lo < 0x1000_0000_0000_0000,
        forall|k: int, v: int|
            #![trigger ends@(v)(row@[k])]
            0 <= k < row@.len() ==> ends@(v)(row@[k]) == (cols@[lo + k] == v),
        forall|k: int| lo <= k < hi ==> (#[trigger] cols@[k]) < old(acc)@.len(),
        u < old(acc)@.len(),
        adds_up(old(acc)@, old(seen)@),
        total_to(old(acc)@, old(acc)@.len() as int) < 0x1000_0000_0000_0000,
    ensures
        adds_up(final(acc)@, final(seen)@),
        final(acc)@.len() == old(acc)@.len(),
        forall|v: int|
            0 <= v < final(acc)@.len() ==> (#[trigger] final(acc)@[v]) == old(acc)@[v] + (if v == u {
                0
            } else {
                count(row@, ends@(v))
            }),
        loops == count(row@, ends@(u as int)),
        total_to(final(acc)@, final(acc)@.len() as int) == total_to(
            old(acc)@,
            old(acc)@.len() as int,
        ) + row@.len() - loops,
        loops <= row@.len(),
{
    let ghost first = acc@;
    let ghost n = acc@.len() as int;
    let mut loops: u64 = 0;
    let mut k: usize = lo;
    assert(row@.take(0) =~= Seq::<Edge>::empty());
    while k < hi
        invariant
            lo <= k <= hi <= cols@.len(),
            row@.len() == hi - lo,
            hi - lo < 0x1000_0000_0000_0000,
            forall|j: int, v: int|
                #![trigger ends@(v)(row@[j])]
                0 <= j < row@.len() ==> ends@(v)(row@[j]) == (cols@[lo + j] == v),
            forall|j: int| lo <= j < hi ==> (#[trigger] cols@[j]) < n,
            n == first.len(),
            u < n,
            acc@.len() == n,
            adds_up(acc@, seen@),
            total_to(first, n) < 0x1000_0000_0000_0000,
            total_to(acc@, n) == total_to(first, n) + (k - lo) - loops,
            loops <= k - lo,
            loops == count(row@.take(k - lo), ends@(u as int)),
            forall|v: int|
                0 <= v < n ==> (#[trigger] acc@[v]) == first[v] + (if v == u {
                    0
                } else {
                    count(row@.take(k - lo), ends@(v))
                }),
        decreases hi - k,
    {
        let v: u32 = cols[k];
        let ghost before = acc@;
        let ghost j = k - lo;
        if v as usize == u {
            loops = loops + 1;
        } else {
            put(acc, seen, v, 1);
        }
        proof {
            assert forall|x: int| #![trigger ends@(x)] 0 <= x < n implies count(
                row@.take(j + 1),
                ends@(x),
            ) == count(row@.take(j), ends@(x)) + bit(cols@[lo + j] == x) by {
                let p = ends@(x);
                lemma_sum_take(row@, j, |e: Edge| bit(p(e)));
                assert(ends@(x)(row@[j]) == (cols@[lo + j] == x));
            }
            assert(ends@(u as int)(row@[j]) == (cols@[lo + j] == u));
            lemma_total_part(before, v as int, n);
            assert forall|x: int| 0 <= x < n implies (#[trigger] acc@[x]) == first[x] + (if x == u {
                0
            } else {
                count(row@.take(j + 1), ends@(x))
            }) by {
                assert(before[x] == first[x] + (if x == u {
                    0
                } else {
                    count(row@.take(j), ends@(x))
                }));
                assert(count(row@.take(j + 1), ends@(x)) == count(row@.take(j), ends@(x)) + bit(
                    cols@[lo + j] == x,
                ));
            }
        }
        k = k + 1;
    }
    assert(row@.take(hi - lo) =~= row@);
    loops
}

/// The edges of a row by their other ends.
spec fn by_dst() -> spec_fn(int) -> spec_fn(Edge) -> bool {
    |v: int| into_node(v)
}

spec fn by_src() -> spec_fn(int) -> spec_fn(Edge) -> bool {
    |v: int| out_of_node(v)
}

impl LouvainLevel {
    /// The first level: every node by itself, linked by as many edges as join it
    /// with another in either direction.
    pub fn from_snapshot(snap: &CsrSnapshot) -> (level: LouvainLevel)
        requires
            snap.wf(),
            snap.edges@.len() < 0x0800_0000_0000_0000,
        ensures
            level_of(snap.edges@, snap.n(), level),
    {
        let n: usize = snap.dense_to_id.len();
        let ghost edges = snap.edges@;
        let mut links: Vec<Vec<(u32, u64)>> = Vec::new();
        let mut self_weight: Vec<u64> = Vec::new();
        let mut degree: Vec<u64> = Vec::new();
        let mut acc: Vec<u64> = Vec::new();
        let mut v: usize = 0;
        while v < n
            invariant
                v <= n,
                acc@.len() == v,
                forall|x: int| 0 <= x < v ==> (#[trigger] acc@[x]) == 0,
            decreases n - v,
        {
            acc.push(0);
            v = v + 1;
        }
        let mut seen: Vec<u32> = Vec::new();
        let mut u: usize = 0;
        while u < n
            invariant
                snap.wf(),
                n == snap.n(),
                edges == snap.edges@,
                edges.len() < 0x0800_0000_0000_0000,
                u <= n,
                acc@.len() == n,
                forall|x: int| 0 <= x < n ==> (#[trigger] acc@[x]) == 0,
                seen@.len() == 0,
                links@.len() == u,
                self_weight@.len() == u,
                degree@.len() == u,
                forall|x: int| 0 <= x < u ==> (#[trigger] degree@[x]) == ends_at(edges, x),
                forall|x: int|
                    0 <= x < u ==> (#[trigger] degree@[x]) == row_weight(
                        links@[x]@,
                        links@[x]@.len() as int,
                    ) + self_weight@[x],
                forall|x: int| 0 <= x < u ==> linked_right(edges, n as nat, x, (
                #[trigger] links@[x])@),
            decreases n - u,
        {
            let ghost outs = snap.out_row(u as int);
            let ghost ins = snap.in_row(u as int);
            let ghost zeros = acc@;
            proof {
                assert(outs == edges.filter(leaving(u as int)));
                assert(ins == edges.filter(entering(u as int)));
                lemma_total_gap(acc@, 0, n as int);
                lemma_loops(edges, u as int);
                assert forall|k: int, x: int|
                    #![trigger by_dst()(x)(outs[k])]
                    0 <= k < outs.len() implies by_dst()(x)(outs[k]) == (snap.col_idx@[snap.row_ptr@[u as int]
                    + k] == x) by {}
                assert forall|k: int, x: int|
                    #![trigger by_src()(x)(ins[k])]
                    0 <= k < ins.len() implies by_src()(x)(ins[k])
                    == (snap.in_col_idx@[snap.in_row_ptr@[u as int] + k] == x) by {}
            }
            let loops: u64 = add_row(
                &snap.col_idx,
                snap.row_ptr[u],
                snap.row_ptr[u + 1],
                u,
                &mut acc,
                &mut seen,
                Ghost(outs),
                Ghost(by_dst()),
            );
            let again: u64 = add_row(
                &snap.in_col_idx,
                snap.in_row_ptr[u],
                snap.in_row_ptr[u + 1],
                u,
                &mut acc,
                &mut seen,
                Ghost(ins),
                Ghost(by_src()),
            );
            let ghost sums = acc@;
            proof {
                assert(loops == count(outs, into_node(u as int)));
                assert(again == loops);
                assert forall|x: int| 0 <= x < n implies (#[trigger] sums[x]) == (if x == u {
                    0
                } else {
                    joins(edges, u as int, x)
                }) by {}
            }
            let row: Vec<(u32, u64)> = flush(&mut acc, &mut seen);
            let weight: u64 = row_total(&row);
            proof {
                assert(weight + 2 * loops == ends_at(edges, u as int));
                assert(linked_right(edges, n as nat, u as int, row@)) by {
                    assert forall|x: int|
                        0 <= x < n && x != u && #[trigger] joins(
                            edges,
                            u as int,
                            x,
                        ) > 0 implies has_link(row@, x) by {
                        assert(sums[x] > 0);
                    }
                    assert forall|k: int| 0 <= k < row@.len() implies (#[trigger] row@[k]).0 < n
                        && row@[k].0 != u && row@[k].1 > 0 && row@[k].1 == joins(
                        edges,
                        u as int,
                        row@[k].0 as int,
                    ) by {
                        assert(row@[k].1 == sums[row@[k].0 as int]);
                    }
                }
            }
            links.push(row);
            self_weight.push(2 * loops);
            degree.push(weight + 2 * loops);
            u = u + 1;
        }
        proof {
            lemma_degrees_total(edges, n as nat, degree@);
        }
        let total: u64 = sum_all(&degree);
        let level: LouvainLevel = LouvainLevel { links, self_weight, degree, total };
        proof {
            assert forall|x: int, k: int|
                #![trigger level.row(x)[k]]
                0 <= x < n && 0 <= k < level.row(x).len() implies level.row(x)[k].0 < n
                && level.row(x)[k].0 != x && level.row(x)[k].1 > 0 && level.row(x)[k].1 == joins(
                edges,
                x,
                level.row(x)[k].0 as int,
            ) by {
                assert(linked_right(edges, n as nat, x, level.links@[x]@));
            }
            assert forall|x: int, i: int, j: int|
                #![trigger level.row(x)[i], level.row(x)[j]]
                0 <= x < n && 0 <= i < j < level.row(x).len() implies level.row(x)[i].0
                < level.row(x)[j].0 by {
                assert(linked_right(edges, n as nat, x, level.links@[x]@));
            }
            assert forall|x: int, y: int|
                0 <= x < n && 0 <= y < n && x != y && #[trigger] joins(
                    edges,
                    x,
                    y,
                ) > 0 implies has_link(level.row(x), y) by {
                assert(linked_right(edges, n as nat, x, level.links@[x]@));
            }
        }
        level
    }
}

/// A row of the first level is right.
spec fn linked_right(edges: Seq<Edge>, n: nat, u: int, row: Seq<(u32, u64)>) -> bool {
    &&& forall|i: int, j: int| 0 <= i < j < row.len() ==> row[i].0 < row[j].0
    &&& forall|k: int|
        0 <= k < row.len() ==> (#[trigger] row[k]).0 < n && row[k].0 != u && row[k].1 > 0
            && row[k].1 == joins(edges, u, row[k].0 as int)
    &&& forall|v: int|
        0 <= v < n && v != u && #[trigger] joins(edges, u, v) > 0 ==> has_link(row, v)
}

/// The weight of a row.
fn row_total(row: &Vec<(u32, u64)>) -> (w: u64)
    requires
        row_weight(row@, row@.len() as int) <= u64::MAX,
    ensures
        w == row_weight(row@, row@.len() as int),
{
    let mut w: u64 = 0;
    let mut k: usize = 0;
    while k < row.len()
        invariant
            k <= row@.len(),
            row_weight(row@, row@.len() as int) <= u64::MAX,
            w == row_weight(row@, k as int),
        decreases row@.len() - k,
    {
        proof {
            lemma_weight_ascends(row@, k + 1, row@.len() as int);
        }
        w = w + row[k].1;
        k = k + 1;
    }
    w
}

/// The numbers of a list, added up.
fn sum_all(s: &Vec<u64>) -> (total: u64)
    requires
        total_to(s@, s@.len() as int) <= u64::MAX,
    ensures
        total == total_to(s@, s@.len() as int),
{
    let mut total: u64 = 0;
    let mut k: usize = 0;
    while k < s.len()
        invariant
            k <= s@.len(),
            total_to(s@, s@.len() as int) <= u64::MAX,
            total == total_to(s@, k as int),
        decreases s@.len() - k,
    {
        proof {
            if k + 1 < s@.len() {
                lemma_total_part(s@, k + 1, s@.len() as int);
            }
        }
        total = total + s[k];
        k = k + 1;
    }
    total
}

/// What the members of the group `c` among the first `k` nodes have of links
/// into the group `d`.
pub open spec fn between(level: LouvainLevel, group: Seq<u32>, c: u32, d: u32, k: int) -> nat
    decreases k,
{
    if k <= 0 {
        0
    } else {
        between(level, group, c, d, k - 1) + (if group[k - 1] == c {
            link_to(level.row(k - 1), group, d, level.row(k - 1).len() as int)
        } else {
            0
        })
    }
}

/// `group` numbers the communities in the order of their first members.
pub open spec fn renumbers(community: Seq<u32>, group: Seq<u32>, groups: nat) -> bool {
    &&& group.len() == community.len()
    &&& forall|u: int| 0 <= u < group.len() ==> (#[trigger] group[u]) < groups
    &&& forall|u: int, v: int|
        0 <= u < group.len() && 0 <= v < group.len() ==> (#[trigger] group[u]
            == #[trigger] group[v] <==> community[u] == community[v])
    &&& forall|c: int| 0 <= c < groups ==> #[trigger] begins_at(group, c)
}

/// Whether a number occurs, at first after smaller ones only.
pub open spec fn begins_at(group: Seq<u32>, c: int) -> bool {
    exists|u: int|
        0 <= u < group.len() && #[trigger] group[u] == c && forall|v: int|
            0 <= v < u ==> (#[trigger] group[v]) < c
}

/// The next level: each group as one node. Links between groups are the links
/// between their members, in ascending order of the groups, and links within a group
/// become a loop.
pub open spec fn coarse_of(level: LouvainLevel, group: Seq<u32>, coarse: LouvainLevel) -> bool {
    let n = level.n() as int;
    let m = coarse.n() as int;
    &&& coarse.wf()
    &&& coarse.total == level.total
    &&& forall|c: int|
        0 <= c < m ==> (#[trigger] coarse.degree@[c]) == members_to(
            level.degree@,
            group,
            c as u32,
            n,
        )
    &&& forall|c: int|
        0 <= c < m ==> (#[trigger] coarse.self_weight@[c]) == members_to(
            level.self_weight@,
            group,
            c as u32,
            n,
        ) + between(level, group, c as u32, c as u32, n)
    &&& forall|c: int, i: int, j: int|
        #![trigger coarse.row(c)[i], coarse.row(c)[j]]
        0 <= c < m && 0 <= i < j < coarse.row(c).len() ==> coarse.row(c)[i].0 < coarse.row(
            c,
        )[j].0
    &&& forall|c: int, k: int|
        #![trigger coarse.row(c)[k]]
        0 <= c < m && 0 <= k < coarse.row(c).len() ==> coarse.row(c)[k].1 == between(
            level,
            group,
            c as u32,
            coarse.row(c)[k].0,
            n,
        )
    &&& forall|c: int, d: int|
        #![trigger between(level, group, c as u32, d as u32, n)]
        0 <= c < m && 0 <= d < m && c != d && between(level, group, c as u32, d as u32, n) > 0
            ==> has_link(coarse.row(c), d)
}

/// Numbers the communities in the order of their first members.
fn renumber(community: &Vec<u32>, n: usize) -> (r: (Vec<u32>, usize))
    requires
        community@.len() == n,
        n < u32::MAX,
        forall|v: int| 0 <= v < n ==> (#[trigger] community@[v]) < n,
    ensures
        renumbers(community@, r.0@, r.1 as nat),
        r.1 <= n,
        n > 0 ==> r.1 > 0,
{
    let mut number: Vec<u32> = Vec::new();
    let mut v: usize = 0;
    while v < n
        invariant
            v <= n,
            number@.len() == v,
            forall|x: int| 0 <= x < v ==> (#[trigger] number@[x]) == u32::MAX,
        decreases n - v,
    {
        number.push(u32::MAX);
        v = v + 1;
    }
    let mut group: Vec<u32> = Vec::new();
    let mut next: u32 = 0;
    let mut u: usize = 0;
    while u < n
        invariant
            community@.len() == n,
            n < u32::MAX,
            forall|v: int| 0 <= v < n ==> (#[trigger] community@[v]) < n,
            number@.len() == n,
            u <= n,
            group@.len() == u,
            next <= u,
            u > 0 ==> next > 0,
            forall|c: int|
                0 <= c < n ==> (#[trigger] number@[c]) < next || number@[c] == u32::MAX,
            forall|c: int, d: int|
                0 <= c < n && 0 <= d < n && c != d && #[trigger] number@[c] != u32::MAX
                    ==> number@[c] != #[trigger] number@[d],
            forall|x: int|
                0 <= x < u ==> (#[trigger] group@[x]) == number@[community@[x] as int]
                    && group@[x] < next,
            forall|c: int| 0 <= c < next ==> #[trigger] begins_at(group@, c),
        decreases n - u,
    {
        let c: usize = community[u] as usize;
        assert(community@[u as int] < n);
        let ghost before = number@;
        let ghost had = group@;
        let ghost count = next;
        if number[c] == u32::MAX {
            number.set(c, next);
            next = next + 1;
        }
        group.push(number[c]);
        proof {
            assert forall|x: int| 0 <= x < u + 1 implies (#[trigger] group@[x])
                == number@[community@[x] as int] && group@[x] < next by {
                if x < u {
                    assert(group@[x] == had[x]);
                    assert(community@[x] < n);
                    assert(before[community@[x] as int] != u32::MAX);
                }
            }
            assert forall|d: int| 0 <= d < next implies #[trigger] begins_at(group@, d) by {
                if d < count {
                    assert(begins_at(had, d));
                    let x = choose|x: int|
                        0 <= x < had.len() && #[trigger] had[x] == d && forall|y: int|
                            0 <= y < x ==> (#[trigger] had[y]) < d;
                    assert(group@[x] == d);
                    assert forall|y: int| 0 <= y < x implies (#[trigger] group@[y]) < d by {
                        assert(group@[y] == had[y]);
                    }
                } else {
                    assert(group@[u as int] == d);
                    assert forall|y: int| 0 <= y < u implies (#[trigger] group@[y]) < d by {
                        assert(group@[y] == had[y]);
                    }
                }
            }
        }
        u = u + 1;
    }
    proof {
        assert forall|x: int, y: int| 0 <= x < n && 0 <= y < n implies (#[trigger] group@[x]
            == #[trigger] group@[y] <==> community@[x] == community@[y]) by {
            assert(community@[x] < n && community@[y] < n);
            assert(group@[x] == number@[community@[x] as int]);
            assert(group@[y] == number@[community@[y] as int]);
        }
    }
    (group, next as usize)
}

/// The weights of the nodes, added up by group.
fn by_group(weights: &Vec<u64>, group: &Vec<u32>, groups: usize) -> (out: Vec<u64>)
    requires
        weights@.len() == group@.len(),
        forall|u: int| 0 <= u < group@.len() ==> (#[trigger] group@[u]) < groups,
        total_to(weights@, weights@.len() as int) <= u64::MAX,
        groups <= u32::MAX,
    ensures
        out@.len() == groups,
        forall|c: int|
            0 <= c < groups ==> (#[trigger] out@[c]) == members_to(
                weights@,
                group@,
                c as u32,
                weights@.len() as int,
            ),
        total_to(out@, groups as int) == total_to(weights@, weights@.len() as int),
{
    let mut out: Vec<u64> = Vec::new();
    let mut c: usize = 0;
    while c < groups
        invariant
            c <= groups,
            out@.len() == c,
            forall|d: int| 0 <= d < c ==> (#[trigger] out@[d]) == 0,
        decreases groups - c,
    {
        out.push(0);
        c = c + 1;
    }
    proof {
        lemma_total_gap(out@, 0, groups as int);
    }
    let mut u: usize = 0;
    while u < weights.len()
        invariant
            weights@.len() == group@.len(),
            forall|v: int| 0 <= v < group@.len() ==> (#[trigger] group@[v]) < groups,
            total_to(weights@, weights@.len() as int) <= u64::MAX,
            groups <= u32::MAX,
            u <= weights@.len(),
            out@.len() == groups,
            forall|d: int|
                0 <= d < groups ==> (#[trigger] out@[d]) == members_to(
                    weights@,
                    group@,
                    d as u32,
                    u as int,
                ),
            total_to(out@, groups as int) == total_to(weights@, u as int),
        decreases weights@.len() - u,
    {
        let d: usize = group[u] as usize;
        let ghost before = out@;
        proof {
            assert(group@[u as int] < groups);
            lemma_total_part(out@, d as int, groups as int);
            lemma_total_part(weights@, u as int, u + 1);
            if u + 1 < weights@.len() {
                lemma_total_part(weights@, u + 1, weights@.len() as int);
            }
            lemma_total_update(out@, d as int, (out@[d as int] + weights@[u as int]) as u64, groups as int);
        }
        out.set(d, out[d] + weights[u]);
        u = u + 1;
    }
    out
}

impl LouvainLevel {
    /// Makes each community a node of the next level. The communities are
    /// numbered in the order of their first members.
    pub fn coarsen(&self, community: &Vec<u32>) -> (r: (LouvainLevel, Vec<u32>))
        requires
            self.wf(),
            community@.len() == self.n(),
            forall|v: int| 0 <= v < community@.len() ==> (#[trigger] community@[v]) < self.n(),
        ensures
            renumbers(community@, r.1@, r.0.n()),
            coarse_of(*self, r.1@, r.0),
            r.0.n() <= self.n(),
    {
        let n: usize = self.degree.len();
        let (group, groups): (Vec<u32>, usize) = renumber(community, n);
        proof {
            lemma_loops_below(*self, n as int);
        }
        let degree: Vec<u64> = by_group(&self.degree, &group, groups);
        let loops: Vec<u64> = by_group(&self.self_weight, &group, groups);
        let mut members: Vec<Vec<u32>> = Vec::new();
        let mut acc: Vec<u64> = Vec::new();
        let mut c: usize = 0;
        while c < groups
            invariant
                c <= groups,
                members@.len() == c,
                acc@.len() == c,
                forall|d: int| 0 <= d < c ==> (#[trigger] members@[d])@.len() == 0,
                forall|d: int| 0 <= d < c ==> (#[trigger] acc@[d]) == 0,
            decreases groups - c,
        {
            members.push(Vec::new());
            acc.push(0);
            c = c + 1;
        }
        let mut u: usize = 0;
        while u < n
            invariant
                n == self.n(),
                n < u32::MAX,
                group@.len() == n,
                forall|v: int| 0 <= v < n ==> (#[trigger] group@[v]) < groups,
                members@.len() == groups,
                u <= n,
                forall|d: int|
                    0 <= d < groups ==> holds_members(
                        (#[trigger] members@[d])@,
                        group@,
                        d,
                        u as int,
                    ),
            decreases n - u,
        {
            let d: usize = group[u] as usize;
            assert(group@[u as int] < groups);
            let ghost before = members@;
            let mut list: Vec<u32> = Vec::new();
            list.append(&mut members[d]);
            let ghost had = list@;
            assert(had == before[d as int]@);
            list.push(u as u32);
            members.set(d, list);
            proof {
                assert forall|x: int| 0 <= x < groups implies holds_members(
                    (#[trigger] members@[x])@,
                    group@,
                    x,
                    u + 1,
                ) by {
                    assert(holds_members(before[x]@, group@, x, u as int));
                    lemma_one_more_member(before[x]@, members@[x]@, group@, x, u as int);
                }
            }
            u = u + 1;
        }
        let mut links: Vec<Vec<(u32, u64)>> = Vec::new();
        let mut self_weight: Vec<u64> = Vec::new();
        let mut seen: Vec<u32> = Vec::new();
        let mut k: usize = 0;
        while k < groups
            invariant
                self.wf(),
                n == self.n(),
                group@.len() == n,
                groups <= n,
                forall|v: int| 0 <= v < n ==> (#[trigger] group@[v]) < groups,
                members@.len() == groups,
                loops@.len() == groups,
                degree@.len() == groups,
                forall|d: int|
                    0 <= d < groups ==> holds_members(
                        (#[trigger] members@[d])@,
                        group@,
                        d,
                        n as int,
                    ),
                forall|d: int|
                    0 <= d < groups ==> (#[trigger] loops@[d]) == members_to(
                        self.self_weight@,
                        group@,
                        d as u32,
                        n as int,
                    ),
                forall|d: int|
                    0 <= d < groups ==> (#[trigger] degree@[d]) == members_to(
                        self.degree@,
                        group@,
                        d as u32,
                        n as int,
                    ),
                acc@.len() == groups,
                seen@.len() == 0,
                forall|d: int| 0 <= d < groups ==> (#[trigger] acc@[d]) == 0,
                k <= groups,
                links@.len() == k,
                self_weight@.len() == k,
                forall|d: int|
                    0 <= d < k ==> coarse_row(
                        *self,
                        group@,
                        d,
                        groups as int,
                        (#[trigger] links@[d])@,
                        self_weight@[d],
                        degree@[d],
                    ),
            decreases groups - k,
        {
            assert(holds_members(members@[k as int]@, group@, k as int, n as int));
            let inner: u64 = self.add_members(
                &members[k],
                &group,
                k as u32,
                groups,
                &mut acc,
                &mut seen,
            );
            let ghost sums = acc@;
            let row: Vec<(u32, u64)> = flush(&mut acc, &mut seen);
            proof {
                lemma_members(self.degree@, group@, k as u32, 0, n as int);
                lemma_degree_splits(*self, group@, k as u32, n as int);
                assert(loops@[k as int] + inner <= self.total);
                assert(coarse_row(
                    *self,
                    group@,
                    k as int,
                    groups as int,
                    row@,
                    (loops@[k as int] + inner) as u64,
                    degree@[k as int],
                )) by {
                    assert forall|d: int|
                        #![trigger between(*self, group@, k as u32, d as u32, n as int)]
                        0 <= d < groups && d != k && between(
                            *self,
                            group@,
                            k as u32,
                            d as u32,
                            n as int,
                        ) > 0 implies has_link(row@, d) by {
                        assert(sums[d] == between(
                            *self,
                            group@,
                            k as u32,
                            d as u32,
                            n as int,
                        ));
                    }
                    assert forall|i: int| 0 <= i < row@.len() implies (#[trigger] row@[i]).0
                        < groups && row@[i].0 != k && row@[i].1 > 0 && row@[i].1 == between(
                        *self,
                        group@,
                        k as u32,
                        row@[i].0,
                        n as int,
                    ) by {
                        assert(row@[i].1 == sums[row@[i].0 as int]);
                    }
                }
            }
            links.push(row);
            self_weight.push(loops[k] + inner);
            k = k + 1;
        }
        let coarse: LouvainLevel = LouvainLevel {
            links,
            self_weight,
            degree,
            total: self.total,
        };
        proof {
            assert forall|d: int, i: int|
                #![trigger coarse.row(d)[i]]
                0 <= d < groups && 0 <= i < coarse.row(d).len() implies coarse.row(d)[i].0 < groups
                && coarse.row(d)[i].0 != d && coarse.row(d)[i].1 > 0 && coarse.row(d)[i].1
                == between(*self, group@, d as u32, coarse.row(d)[i].0, n as int) by {
                assert(coarse_row(
                    *self,
                    group@,
                    d,
                    groups as int,
                    coarse.links@[d]@,
                    coarse.self_weight@[d],
                    coarse.degree@[d],
                ));
            }
            assert forall|d: int, i: int, j: int|
                #![trigger coarse.row(d)[i], coarse.row(d)[j]]
                0 <= d < groups && 0 <= i < j < coarse.row(d).len() implies coarse.row(d)[i].0
                < coarse.row(d)[j].0 by {
                assert(coarse_row(
                    *self,
                    group@,
                    d,
                    groups as int,
                    coarse.links@[d]@,
                    coarse.self_weight@[d],
                    coarse.degree@[d],
                ));
            }
            assert forall|d: int| 0 <= d < groups implies (#[trigger] coarse.degree@[d])
                == row_weight(coarse.row(d), coarse.row(d).len() as int)
                + coarse.self_weight@[d] by {
                assert(coarse_row(
                    *self,
                    group@,
                    d,
                    groups as int,
                    coarse.links@[d]@,
                    coarse.self_weight@[d],
                    coarse.degree@[d],
                ));
            }
            assert forall|d: int| 0 <= d < groups implies (#[trigger] coarse.self_weight@[d])
                == members_to(self.self_weight@, group@, d as u32, n as int) + between(
                *self,
                group@,
                d as u32,
                d as u32,
                n as int,
            ) by {
                assert(coarse_row(
                    *self,
                    group@,
                    d,
                    groups as int,
                    coarse.links@[d]@,
                    coarse.self_weight@[d],
                    coarse.degree@[d],
                ));
            }
            assert forall|x: int, d: int|
                #![trigger between(*self, group@, x as u32, d as u32, n as int)]
                0 <= x < groups && 0 <= d < groups && x != d && between(
                    *self,
                    group@,
                    x as u32,
                    d as u32,
                    n as int,
                ) > 0 implies has_link(coarse.row(x), d) by {
                assert(coarse_row(
                    *self,
                    group@,
                    x,
                    groups as int,
                    coarse.links@[x]@,
                    coarse.self_weight@[x],
                    coarse.degree@[x],
                ));
            }
        }
        (coarse, group)
    }

    /// Adds up the links of the members of a group by the groups that they lead
    /// into; those within the group are returned.
    fn add_members(
        &self,
        members: &Vec<u32>,
        group: &Vec<u32>,
        c: u32,
        groups: usize,
        acc: &mut Vec<u64>,
        seen: &mut Vec<u32>,
    ) -> (inner: u64)
        requires
            self.wf(),
            group@.len() == self.n(),
            groups <= self.n(),
            c < groups,
            forall|v: int| 0 <= v < group@.len() ==> (#[trigger] group@[v]) < groups,
            holds_members(members@, group@, c as int, self.n() as int),
            old(acc)@.len() == groups,
            forall|d: int| 0 <= d < groups ==> (#[trigger] old(acc)@[d]) == 0,
            old(seen)@.len() == 0,
        ensures
            adds_up(final(acc)@, final(seen)@),
            final(acc)@.len() == groups,
            forall|d: int|
                0 <= d < groups ==> (#[trigger] final(acc)@[d]) == (if d == c {
                    0
                } else {
                    between(*self, group@, c, d as u32, self.n() as int)
                }),
            inner == between(*self, group@, c, c, self.n() as int),
            total_to(final(acc)@, groups as int) + inner == weight_of(
                *self,
                group@,
                c,
                self.n() as int,
            ),
    {
        let n: usize = self.degree.len();
        let mut inner: u64 = 0;
        let mut i: usize = 0;
        let mut done: Ghost<int> = Ghost(0);
        proof {
            lemma_total_gap(acc@, 0, groups as int);
            lemma_degree_splits(*self, group@, c, n as int);
            lemma_members(self.degree@, group@, c, 0, n as int);
        }
        while i < members.len()
            invariant
                self.wf(),
                n == self.n(),
                group@.len() == n,
                groups <= n,
                c < groups,
                forall|v: int| 0 <= v < group@.len() ==> (#[trigger] group@[v]) < groups,
                holds_members(members@, group@, c as int, n as int),
                weight_of(*self, group@, c, n as int) <= self.total,
                i <= members@.len(),
                0 <= done@ <= n,
                done@ == (if i == 0 {
                    0
                } else {
                    members@[i - 1] + 1
                }),
                acc@.len() == groups,
                adds_up(acc@, seen@),
                inner == between(*self, group@, c, c, done@),
                forall|d: int|
                    0 <= d < groups ==> (#[trigger] acc@[d]) == (if d == c {
                        0
                    } else {
                        between(*self, group@, c, d as u32, done@)
                    }),
                total_to(acc@, groups as int) + inner == weight_of(*self, group@, c, done@),
            decreases members@.len() - i,
        {
            let u: u32 = members[i];
            let ghost row = self.row(u as int);
            let ghost first = acc@;
            let ghost within = inner;
            proof {
                assert(members@.contains(u));
                assert(done@ <= u) by {
                    if i > 0 {
                        assert(members@[i - 1] < members@[i as int]);
                    }
                }
                lemma_no_members(members@, group@, c, n as int, i as int, done@, u as int);
                lemma_group_gap(*self, group@, c, done@, u as int);
                lemma_weight_of_ascends(*self, group@, c, u + 1, n as int);
            }
            let mut k: usize = 0;
            while k < self.links[u as usize].len()
                invariant
                    self.wf(),
                    n == self.n(),
                    u < n,
                    row == self.row(u as int),
                    group@.len() == n,
                    groups <= n,
                    c < groups,
                    forall|v: int| 0 <= v < group@.len() ==> (#[trigger] group@[v]) < groups,
                    k <= row.len(),
                    first.len() == groups,
                    acc@.len() == groups,
                    adds_up(acc@, seen@),
                    first[c as int] == 0,
                    total_to(first, groups as int) + within + row_weight(row, row.len() as int)
                        <= self.total,
                    inner == within + link_to(row, group@, c, k as int),
                    forall|d: int|
                        0 <= d < groups ==> (#[trigger] acc@[d]) == first[d] + (if d == c {
                            0
                        } else {
                            link_to(row, group@, d as u32, k as int)
                        }),
                    total_to(acc@, groups as int) + inner == total_to(first, groups as int) + within
                        + row_weight(row, k as int),
                decreases row.len() - k,
            {
                let (v, w): (u32, u64) = self.links[u as usize][k];
                assert(row[k as int] == (v, w));
                assert(self.row(u as int)[k as int].0 < n);
                let d: u32 = group[v as usize];
                let ghost before = acc@;
                proof {
                    assert(group@[v as int] < groups);
                    lemma_weight_ascends(row, k + 1, row.len() as int);
                    lemma_total_part(acc@, d as int, groups as int);
                }
                if d == c {
                    inner = inner + w;
                } else {
                    put(acc, seen, d, w);
                }
                k = k + 1;
            }
            proof {
                assert(group@[u as int] == c);
                assert forall|d: u32|
                    between(*self, group@, c, d, u + 1) == #[trigger] between(
                        *self,
                        group@,
                        c,
                        d,
                        done@,
                    ) + link_to(row, group@, d, row.len() as int) by {
                    assert(between(*self, group@, c, d, u as int) == between(
                        *self,
                        group@,
                        c,
                        d,
                        done@,
                    ));
                }
                assert forall|d: int| 0 <= d < groups implies (#[trigger] acc@[d]) == (if d == c {
                    0
                } else {
                    between(*self, group@, c, d as u32, u + 1)
                }) by {
                    assert(between(*self, group@, c, d as u32, u + 1) == between(
                        *self,
                        group@,
                        c,
                        d as u32,
                        done@,
                    ) + link_to(row, group@, d as u32, row.len() as int));
                    assert(first[d] == (if d == c {
                        0
                    } else {
                        between(*self, group@, c, d as u32, done@)
                    }));
                }
                assert(between(*self, group@, c, c, u + 1) == between(
                    *self,
                    group@,
                    c,
                    c,
                    done@,
                ) + link_to(row, group@, c, row.len() as int));
            }
            done = Ghost(u + 1);
            i = i + 1;
        }
        proof {
            lemma_no_members(members@, group@, c, n as int, i as int, done@, n as int);
            lemma_group_gap(*self, group@, c, done@, n as int);
        }
        inner
    }
}

/// What the members of a group among the first `k` nodes have of links.
spec fn weight_of(level: LouvainLevel, group: Seq<u32>, c: u32, k: int) -> nat
    decreases k,
{
    if k <= 0 {
        0
    } else {
        weight_of(level, group, c, k - 1) + (if group[k - 1] == c {
            row_weight(level.row(k - 1), level.row(k - 1).len() as int)
        } else {
            0
        })
    }
}

proof fn lemma_weight_of_ascends(level: LouvainLevel, group: Seq<u32>, c: u32, a: int, b: int)
    requires
        0 <= a <= b,
    ensures
        weight_of(level, group, c, a) <= weight_of(level, group, c, b),
    decreases b,
{
    if a < b {
        lemma_weight_of_ascends(level, group, c, a, b - 1);
    }
}

/// Degrees are links and loops.
proof fn lemma_degree_splits(level: LouvainLevel, group: Seq<u32>, c: u32, k: int)
    requires
        level.wf(),
        0 <= k <= level.n(),
    ensures
        members_to(level.degree@, group, c, k) == weight_of(level, group, c, k) + members_to(
            level.self_weight@,
            group,
            c,
            k,
        ),
    decreases k,
{
    if k > 0 {
        lemma_degree_splits(level, group, c, k - 1);
        assert(level.degree@[k - 1] == row_weight(
            level.row(k - 1),
            level.row(k - 1).len() as int,
        ) + level.self_weight@[k - 1]);
    }
}

proof fn lemma_loops_below(level: LouvainLevel, k: int)
    requires
        level.wf(),
        0 <= k <= level.n(),
    ensures
        total_to(level.self_weight@, k) <= total_to(level.degree@, k),
    decreases k,
{
    if k > 0 {
        lemma_loops_below(level, k - 1);
        assert(level.degree@[k - 1] == row_weight(
            level.row(k - 1),
            level.row(k - 1).len() as int,
        ) + level.self_weight@[k - 1]);
    }
}

proof fn lemma_group_gap(level: LouvainLevel, group: Seq<u32>, c: u32, lo: int, hi: int)
    requires
        0 <= lo <= hi,
        forall|u: int| lo <= u < hi ==> (#[trigger] group[u]) != c,
    ensures
        weight_of(level, group, c, hi) == weight_of(level, group, c, lo),
        forall|d: u32| #[trigger]
            between(level, group, c, d, hi) == between(level, group, c, d, lo),
    decreases hi - lo,
{
    if lo < hi {
        lemma_group_gap(level, group, c, lo, hi - 1);
        assert(group[hi - 1] != c);
        assert forall|d: u32| #[trigger] between(level, group, c, d, hi) == between(
            level,
            group,
            c,
            d,
            lo,
        ) by {
            assert(between(level, group, c, d, hi - 1) == between(level, group, c, d, lo));
        }
    }
}

/// `list` holds the members of a group among the first `k` nodes, in ascending order.
spec fn holds_members(list: Seq<u32>, group: Seq<u32>, c: int, k: int) -> bool {
    &&& nodes_ascending(list)
    &&& forall|v: u32| #[trigger] list.contains(v) <==> v < k && group[v as int] == c
}

proof fn lemma_one_more_member(
    before: Seq<u32>,
    now: Seq<u32>,
    group: Seq<u32>,
    c: int,
    u: int,
)
    requires
        0 <= u < group.len(),
        u < u32::MAX,
        holds_members(before, group, c, u),
        now == (if group[u] == c {
            before.push(u as u32)
        } else {
            before
        }),
    ensures
        holds_members(now, group, c, u + 1),
{
    assert forall|v: u32| #[trigger] now.contains(v) <==> v < u + 1 && group[v as int] == c by {
        assert(before.contains(v) <==> v < u && group[v as int] == c);
        if before.contains(v) {
            let j = before.index_of(v);
            assert(now[j] == v);
        }
        if group[u] == c {
            assert(now[before.len() as int] == u);
        }
    }
    assert forall|i: int| 0 <= i < before.len() implies before[i] < u by {
        assert(before.contains(before[i]));
    }
}

proof fn lemma_no_members(
    members: Seq<u32>,
    group: Seq<u32>,
    c: u32,
    n: int,
    i: int,
    lo: int,
    hi: int,
)
    requires
        n <= u32::MAX,
        n == group.len(),
        holds_members(members, group, c as int, n),
        0 <= i <= members.len(),
        0 <= lo <= hi <= n,
        i > 0 ==> lo == members[i - 1] + 1,
        i < members.len() ==> hi == members[i],
    ensures
        forall|u: int| lo <= u < hi ==> (#[trigger] group[u]) != c,
{
    assert forall|u: int| lo <= u < hi implies (#[trigger] group[u]) != c by {
        if group[u] == c {
            assert(members.contains(u as u32));
            let j = members.index_of(u as u32);
            assert(members[j] == u);
            if j < i - 1 {
                assert(members[j] < members[i - 1]);
            } else if j > i {
                assert(members[i] < members[j]);
            }
        }
    }
}

/// A row of the next level is right.
spec fn coarse_row(
    level: LouvainLevel,
    group: Seq<u32>,
    c: int,
    groups: int,
    row: Seq<(u32, u64)>,
    loops: u64,
    degree: u64,
) -> bool {
    let n = level.n() as int;
    &&& forall|i: int, j: int| 0 <= i < j < row.len() ==> row[i].0 < row[j].0
    &&& forall|i: int|
        0 <= i < row.len() ==> (#[trigger] row[i]).0 < groups && row[i].0 != c && row[i].1 > 0
            && row[i].1 == between(level, group, c as u32, row[i].0, n)
    &&& forall|d: int|
        #![trigger between(level, group, c as u32, d as u32, n)]
        0 <= d < groups && d != c && between(level, group, c as u32, d as u32, n) > 0 ==> has_link(
            row,
            d,
        )
    &&& loops == members_to(level.self_weight@, group, c as u32, n) + between(
        level,
        group,
        c as u32,
        c as u32,
        n,
    )
    &&& degree == row_weight(row, row.len() as int) + loops
}

/// The groups of `group` for nodes that have groups `member`.
pub open spec fn compose(member: Seq<u32>, group: Seq<u32>) -> Seq<u32> {
    member.map_values(|c: u32| group[c as int])
}

/// The groups that at most `rounds` more levels give: each level moves its
/// nodes and becomes the next one, until nothing merges or one node is left.
pub open spec fn settles_as(
    level: LouvainLevel,
    member: Seq<u32>,
    rounds: nat,
    out: Seq<u32>,
) -> bool
    decreases rounds,
{
    if rounds == 0 {
        out == member
    } else {
        exists|coarse: LouvainLevel, group: Seq<u32>|
            {
                &&& #[trigger] coarse_of(level, group, coarse)
                &&& renumbers(sweeps(level, alone(level.n()), 32), group, coarse.n())
                &&& if coarse.n() == level.n() {
                    out == member
                } else if coarse.n() == 1 {
                    out == compose(member, group)
                } else {
                    settles_as(coarse, compose(member, group), (rounds - 1) as nat, out)
                }
            }
    }
}

/// Whether a member's community is named by its first node.
pub open spec fn named_first(ids: Seq<NodeId>, member: Seq<u32>, u: int, name: NodeId) -> bool {
    exists|v: int|
        0 <= v <= u && #[trigger] member[v] == member[u] && name == ids[v] && forall|w: int|
            0 <= w < v ==> (#[trigger] member[w]) != member[u]
}

/// Runs the levels of the hierarchy from a level on.
fn settle(level: LouvainLevel, member: Vec<u32>, rounds: usize) -> (out: Vec<u32>)
    requires
        level.wf(),
        forall|u: int| 0 <= u < member@.len() ==> (#[trigger] member@[u]) < level.n(),
    ensures
        settles_as(level, member@, rounds as nat, out@),
        out@.len() == member@.len(),
    decreases rounds,
{
    if rounds == 0 {
        return member;
    }
    let community: Vec<u32> = level.local_moving();
    let (coarse, group): (LouvainLevel, Vec<u32>) = level.coarsen(&community);
    if coarse.degree.len() == level.degree.len() {
        proof {
            assert(coarse_of(level, group@, coarse));
        }
        return member;
    }
    let mut next: Vec<u32> = Vec::new();
    let mut u: usize = 0;
    while u < member.len()
        invariant
            forall|x: int| 0 <= x < member@.len() ==> (#[trigger] member@[x]) < level.n(),
            group@.len() == level.n(),
            forall|x: int| 0 <= x < group@.len() ==> (#[trigger] group@[x]) < coarse.n(),
            u <= member@.len(),
            next@.len() == u,
            forall|x: int| 0 <= x < u ==> (#[trigger] next@[x]) == group@[member@[x] as int],
        decreases member@.len() - u,
    {
        assert(member@[u as int] < level.n());
        next.push(group[member[u] as usize]);
        u = u + 1;
    }
    proof {
        assert(next@ =~= compose(member@, group@));
        assert(coarse_of(level, group@, coarse));
        assert forall|x: int| 0 <= x < next@.len() implies (#[trigger] next@[x]) < coarse.n() by {
            assert(member@[x] < level.n());
            assert(group@[member@[x] as int] < coarse.n());
        }
    }
    if coarse.degree.len() == 1 {
        return next;
    }
    settle(coarse, next, rounds - 1)
}

/// The communities of the Louvain method: for each node the smallest node of
/// its community.
pub fn louvain(snap: &CsrSnapshot) -> (out: Vec<NodeId>)
    requires
        snap.wf(),
        snap.edges@.len() < 0x0800_0000_0000_0000,
    ensures
        out@.len() == snap.n(),
        exists|level: LouvainLevel, member: Seq<u32>|
            {
                &&& #[trigger] level_of(snap.edges@, snap.n(), level)
                &&& #[trigger] settles_as(level, alone(snap.n()), 32, member)
                &&& member.len() == snap.n()
                &&& forall|u: int|
                    0 <= u < snap.n() ==> named_first(
                        snap.dense_to_id@,
                        member,
                        u,
                        #[trigger] out@[u],
                    )
            },
{
    let n: usize = snap.dense_to_id.len();
    let level: LouvainLevel = LouvainLevel::from_snapshot(snap);
    let ghost first = level;
    let mut member: Vec<u32> = Vec::new();
    let mut v: usize = 0;
    while v < n
        invariant
            v <= n,
            n < u32::MAX,
            member@.len() == v,
            forall|x: int| 0 <= x < v ==> (#[trigger] member@[x]) == x,
        decreases n - v,
    {
        member.push(v as u32);
        v = v + 1;
    }
    assert(member@ =~= alone(n as nat));
    let groups: Vec<u32> = settle(level, member, LOUVAIN_MAX_LEVELS);
    let mut out: Vec<NodeId> = Vec::new();
    let mut u: usize = 0;
    while u < n
        invariant
            n == snap.n(),
            snap.dense_to_id@.len() == n,
            groups@.len() == n,
            u <= n,
            out@.len() == u,
            forall|x: int|
                0 <= x < u ==> named_first(snap.dense_to_id@, groups@, x, #[trigger] out@[x]),
        decreases n - u,
    {
        let mut w: usize = 0;
        while groups[w] != groups[u]
            invariant
                groups@.len() == n,
                u < n,
                w <= u,
                forall|x: int| 0 <= x < w ==> (#[trigger] groups@[x]) != groups@[u as int],
            decreases u - w,
        {
            w = w + 1;
        }
        out.push(snap.dense_to_id[w]);
        assert(named_first(snap.dense_to_id@, groups@, u as int, snap.dense_to_id@[w as int])) by {
            assert(groups@[w as int] == groups@[u as int]);
        }
        u = u + 1;
    }
    proof {
        assert(level_of(snap.edges@, snap.n(), first));
        assert(settles_as(first, alone(snap.n()), 32, groups@));
    }
    out
}

} // verus!
