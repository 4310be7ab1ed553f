//! Shared neighbors, linked neighbors, and the shortest paths from a node.

use vstd::prelude::*;

use crate::analytics::{gather, lemma_list_size, near, near_count, Stamps};
use crate::csr::{CsrSnapshot, Edge};
use crate::schema::NodeId;
use crate::sums::{bit, count, lemma_count_bound, lemma_sum_le, lemma_sum_take, sum, upto};
use crate::traversal::{
    arc, at_level, dense_of, hop_distances, lemma_level_unique, lemma_within_closed,
    lemma_within_mono, levels_to, within, UNREACHED,
};
use crate::typed_adj::{nodes_ascending, sort_nodes};

verus! {

/// The nodes that are joined with `u` in either direction, itself apart.
pub open spec fn around(edges: Seq<Edge>, u: int) -> spec_fn(int) -> bool {
    near(edges, true, true, false, u)
}

/// How many those are.
pub open spec fn around_count(edges: Seq<Edge>, n: nat, u: int) -> nat {
    near_count(edges, n, true, true, false, u)
}

/// What two nodes have in common.
pub struct LinkCounts {
    /// How many neighbors the first has.
    pub left: usize,
    /// How many neighbors the second has.
    pub right: usize,
    /// The neighbors of both.
    pub shared: Vec<u32>,
    /// How many neighbors each of those has.
    pub degrees: Vec<usize>,
}

/// The neighborhoods of two nodes, and what they share; nothing where one of
/// the nodes is not there.
pub fn link_counts(snap: &CsrSnapshot, a: NodeId, b: NodeId) -> (r: Option<LinkCounts>)
    requires
        snap.wf(),
    ensures
        r is Some <==> snap.dense_to_id@.contains(a) && snap.dense_to_id@.contains(b),
        r matches Some(c) ==> ({
            let edges = snap.edges@;
            let n = snap.n();
            let x = dense_of(snap.dense_to_id@, a);
            let y = dense_of(snap.dense_to_id@, b);
            &&& c.left == around_count(edges, n, x)
            &&& c.right == around_count(edges, n, y)
            &&& nodes_ascending(c.shared@)
            &&& forall|v: u32| #[trigger]
                c.shared@.contains(v) <==> v < n && around(edges, x)(v as int) && around(edges, y)(
                    v as int,
                )
            &&& c.degrees@.len() == c.shared@.len()
            &&& forall|i: int|
                0 <= i < c.shared@.len() ==> (#[trigger] c.degrees@[i]) == around_count(
                    edges,
                    n,
                    c.shared@[i] as int,
                )
        }),
{
    let n: usize = snap.dense_to_id.len();
    let (x, y): (usize, usize) = match (snap.dense(a), snap.dense(b)) {
        (Some(x), Some(y)) => (x, y),
        _ => {
            return None;
        },
    };
    proof {
        crate::csr::lemma_index_unique(snap.dense_to_id@, x as int);
        crate::csr::lemma_index_unique(snap.dense_to_id@, y as int);
        assert(snap.dense_to_id@.contains(a) && snap.dense_to_id@.contains(b));
    }
    let ghost edges = snap.edges@;
    let mut stamps: Stamps = Stamps::new(n);
    let mut left: Vec<u32> = gather(snap, x, true, true, false, &mut stamps);
    proof {
        lemma_count_bound(upto(n as nat), around(edges, x as int));
    }
    sort_nodes(&mut left);
    let right: Vec<u32> = gather(snap, y, true, true, false, &mut stamps);
    proof {
        assert forall|v: u32| #[trigger] left@.contains(v) <==> v < n && around(edges, x as int)(
            v as int,
        ) by {
            assert(left@.to_set().contains(v) <==> left@.contains(v));
        }
    }
    let mut shared: Vec<u32> = Vec::new();
    let mut i: usize = 0;
    while i < left.len()
        invariant
            n == snap.n(),
            edges == snap.edges@,
            stamps.wf(n as nat),
            forall|v: int|
                0 <= v < n ==> #[trigger] stamps.has(v) == around(edges, y as int)(v),
            nodes_ascending(left@),
            forall|v: u32| #[trigger]
                left@.contains(v) <==> v < n && around(edges, x as int)(v as int),
            i <= left@.len(),
            shared@.len() <= i,
            nodes_ascending(shared@),
            forall|j: int| 0 <= j < shared@.len() && i < left@.len() ==> shared@[j] < left@[i as int],
            forall|v: u32| #[trigger]
                shared@.contains(v) <==> left@.take(i as int).contains(v) && around(
                    edges,
                    y as int,
                )(v as int),
        decreases left@.len() - i,
    {
        let v: u32 = left[i];
        let ghost before = shared@;
        assert(left@.contains(v));
        let both: bool = stamps.marks[v as usize] == stamps.token;
        assert(both == stamps.has(v as int));
        if both {
            shared.push(v);
        }
        proof {
            lemma_take_step(left@, i as int, before, shared@, both);
            if i + 1 < left@.len() {
                assert(left@[i as int] < left@[i + 1]);
            }
        }
        i = i + 1;
    }
    assert(left@.take(i as int) =~= left@);
    let mut degrees: Vec<usize> = Vec::new();
    let mut j: usize = 0;
    while j < shared.len()
        invariant
            snap.wf(),
            n == snap.n(),
            edges == snap.edges@,
            stamps.wf(n as nat),
            stamps.token <= 2 + j,
            shared@.len() <= n,
            n < u32::MAX,
            forall|v: u32| #[trigger]
                shared@.contains(v) ==> v < n,
            j <= shared@.len(),
            degrees@.len() == j,
            forall|k: int|
                0 <= k < j ==> (#[trigger] degrees@[k]) == around_count(
                    edges,
                    n as nat,
                    shared@[k] as int,
                ),
        decreases shared@.len() - j,
    {
        assert(shared@.contains(shared@[j as int]));
        assert(j < shared.len());
        let list: Vec<u32> = gather(snap, shared[j] as usize, true, true, false, &mut stamps);
        degrees.push(list.len());
        j = j + 1;
    }
    Some(LinkCounts { left: left.len(), right: right.len(), shared, degrees })
}

/// One step of selecting from an ascending list.
proof fn lemma_take_step(all: Seq<u32>, i: int, before: Seq<u32>, now: Seq<u32>, hit: bool)
    requires
        nodes_ascending(all),
        0 <= i < all.len(),
        nodes_ascending(before),
        forall|j: int| 0 <= j < before.len() ==> before[j] < all[i],
        now == (if hit {
            before.push(all[i])
        } else {
            before
        }),
    ensures
        nodes_ascending(now),
        forall|j: int| 0 <= j < now.len() ==> now[j] <= all[i],
        forall|x: u32| #[trigger]
            now.contains(x) <==> before.contains(x) || (hit && x == all[i]),
        forall|x: u32| #[trigger]
            all.take(i + 1).contains(x) <==> all.take(i).contains(x) || x == all[i],
        !all.take(i).contains(all[i]),
{
    assert forall|x: u32| #[trigger] now.contains(x) <==> before.contains(x) || (hit && x
        == all[i]) by {
        if before.contains(x) {
            let j = before.index_of(x);
            assert(now[j] == x);
        }
        if hit {
            assert(now[before.len() as int] == all[i]);
        }
    }
    assert(all.take(i + 1) =~= all.take(i).push(all[i]));
    assert forall|x: u32| #[trigger] all.take(i + 1).contains(x) <==> all.take(i).contains(x) || x
        == all[i] by {
        if all.take(i).contains(x) {
            let j = all.take(i).index_of(x);
            assert(all.take(i + 1)[j] == x);
        }
        assert(all.take(i + 1)[i] == all[i]);
    }
    if all.take(i).contains(all[i]) {
        let j = all.take(i).index_of(all[i]);
        assert(all[j] < all[i]);
    }
}

/// The neighbors of `u` that are neighbors of its neighbor `a` too.
pub open spec fn around_both(edges: Seq<Edge>, u: int, a: int) -> spec_fn(int) -> bool {
    |b: int| around(edges, u)(b) && around(edges, a)(b)
}

/// The ordered pairs of linked neighbors of `u` whose first is below `k`.
pub open spec fn linked_pairs(edges: Seq<Edge>, n: nat, u: int, k: int) -> nat
    decreases k,
{
    if k <= 0 {
        0
    } else {
        linked_pairs(edges, n, u, k - 1) + (if around(edges, u)(k - 1) {
            count(upto(n), around_both(edges, u, k - 1))
        } else {
            0
        })
    }
}

proof fn lemma_pairs_gap(edges: Seq<Edge>, n: nat, u: int, lo: int, hi: int)
    requires
        0 <= lo <= hi,
        forall|a: int| lo <= a < hi ==> !#[trigger] around(edges, u)(a),
    ensures
        linked_pairs(edges, n, u, hi) == linked_pairs(edges, n, u, lo),
    decreases hi - lo,
{
    if lo < hi {
        lemma_pairs_gap(edges, n, u, lo, hi - 1);
        assert(!around(edges, u)(hi - 1));
    }
}

/// There are no more linked pairs than pairs, so that their ratio is at most one.
pub proof fn lemma_clustering_bound(edges: Seq<Edge>, n: nat, u: int)
    ensures
        around_count(edges, n, u) == 0 ==> linked_pairs(edges, n, u, n as int) == 0,
        linked_pairs(edges, n, u, n as int) <= around_count(edges, n, u) * (around_count(
            edges,
            n,
            u,
        ) - 1) || around_count(edges, n, u) == 0,
{
    lemma_pairs_bound(edges, n, u, n as int);
    assert(upto(n).take(n as int) =~= upto(n));
    let k = around_count(edges, n, u);
    if k == 0 {
        assert(0 * (k - 1) == 0);
    }
}

proof fn lemma_pairs_bound(edges: Seq<Edge>, n: nat, u: int, k: int)
    requires
        0 <= k <= n,
    ensures
        linked_pairs(edges, n, u, k) <= count(upto(n).take(k), around(edges, u)) * (if around_count(
            edges,
            n,
            u,
        ) == 0 {
            0
        } else {
            around_count(edges, n, u) - 1
        }),
    decreases k,
{
    let p = around(edges, u);
    let w = |v: int| bit(p(v));
    let m = if around_count(edges, n, u) == 0 {
        0
    } else {
        around_count(edges, n, u) - 1
    };
    if k > 0 {
        lemma_pairs_bound(edges, n, u, k - 1);
        lemma_sum_take(upto(n), k - 1, w);
        let c = count(upto(n).take(k - 1), p);
        assert(upto(n)[k - 1] == k - 1);
        if p(k - 1) {
            // The neighbor itself is not among those that it shares.
            let q = around_both(edges, u, k - 1);
            let x = |v: int| bit(q(v));
            assert(sum(upto(n), x) + 1 <= sum(upto(n), w)) by {
                lemma_sum_below(n, k - 1, x, w);
            }
            assert((c + 1) * m == c * m + m) by (nonlinear_arith);
        } else {
            assert(c + 0 == c);
        }
    } else {
        assert(upto(n).take(0) =~= Seq::<int>::empty());
        assert(0 * m == 0);
    }
}

proof fn lemma_sum_below(n: nat, k: int, x: spec_fn(int) -> nat, w: spec_fn(int) -> nat)
    requires
        0 <= k < n,
        forall|v: int| 0 <= v < n ==> #[trigger] x(v) <= w(v),
        x(k) + 1 <= w(k),
    ensures
        sum(upto(n), x) + 1 <= sum(upto(n), w),
    decreases n,
{
    let m = (n - 1) as nat;
    assert(upto(n).drop_last() =~= upto(m));
    if k < m {
        lemma_sum_below(m, k, x, w);
        assert(x(m as int) <= w(m as int));
    } else {
        assert forall|i: int| 0 <= i < upto(m).len() implies x(#[trigger] upto(m)[i]) <= w(
            upto(m)[i],
        ) by {
            assert(upto(m)[i] == i);
        }
        lemma_sum_le(upto(m), x, w);
    }
}

/// How many ordered pairs of a node's neighbors are linked, and how many
/// neighbors it has.
pub fn clustering_counts(snap: &CsrSnapshot, u: usize) -> (r: (u64, usize))
    requires
        snap.wf(),
        u < snap.n(),
    ensures
        r.0 == linked_pairs(snap.edges@, snap.n(), u as int, snap.n() as int),
        r.1 == around_count(snap.edges@, snap.n(), u as int),
{
    let n: usize = snap.dense_to_id.len();
    let ghost edges = snap.edges@;
    let mut member: Stamps = Stamps::new(n);
    let mut list: Vec<u32> = gather(snap, u, true, true, false, &mut member);
    let k: usize = list.len();
    proof {
        lemma_count_bound(upto(n as nat), around(edges, u as int));
    }
    sort_nodes(&mut list);
    proof {
        assert forall|v: u32| #[trigger] list@.contains(v) <==> v < n && around(edges, u as int)(
            v as int,
        ) by {
            assert(list@.to_set().contains(v) <==> list@.contains(v));
        }
    }
    let mut stamps: Stamps = Stamps::new(n);
    let mut links: u64 = 0;
    let mut done: Ghost<int> = Ghost(0);
    let mut i: usize = 0;
    while i < list.len()
        invariant
            snap.wf(),
            n == snap.n(),
            edges == snap.edges@,
            member.wf(n as nat),
            forall|v: int|
                0 <= v < n ==> #[trigger] member.has(v) == around(edges, u as int)(v),
            nodes_ascending(list@),
            list@.len() <= n,
            forall|v: u32| #[trigger]
                list@.contains(v) <==> v < n && around(edges, u as int)(v as int),
            stamps.wf(n as nat),
            stamps.token == i,
            i <= list@.len(),
            0 <= done@ <= n,
            done@ == (if i == 0 {
                0
            } else {
                list@[i - 1] + 1
            }),
            links == linked_pairs(edges, n as nat, u as int, done@),
            links <= i * n,
        decreases list@.len() - i,
    {
        let a: u32 = list[i];
        assert(list@.contains(a));
        assert(i < list.len());
        let next: Vec<u32> = gather(snap, a as usize, true, true, false, &mut stamps);
        let both: Vec<u32> = marked_of(&next, &member, n);
        proof {
            let q = around_both(edges, u as int, a as int);
            assert forall|v: u32| #[trigger] both@.contains(v) <==> v < n && q(v as int) by {
                if v < n {
                    assert(member.has(v as int) == around(edges, u as int)(v as int));
                }
            }
            lemma_list_size(both@, n as nat, q);
            lemma_count_bound(upto(n as nat), q);
            assert forall|b: int| done@ <= b < a implies !#[trigger] around(edges, u as int)(b) by {
                if around(edges, u as int)(b) {
                    assert(list@.contains(b as u32));
                    let j = list@.index_of(b as u32);
                    assert(list@[j] == b);
                    if j < i {
                        if j < i - 1 {
                            assert(list@[j] < list@[i - 1]);
                        }
                    } else if j > i {
                        assert(list@[i as int] < list@[j]);
                    }
                }
            }
            assert(done@ <= a) by {
                if i > 0 {
                    assert(list@[i - 1] < list@[i as int]);
                }
            }
            lemma_pairs_gap(edges, n as nat, u as int, done@, a as int);
            assert(i * n + n == (i + 1) * n) by (nonlinear_arith);
            assert((i + 1) * n <= 0xffff_ffff * 0xffff_ffff) by (nonlinear_arith)
                requires
                    i + 1 <= 0xffff_ffff,
                    n <= 0xffff_ffff,
            ;
        }
        links = links + both.len() as u64;
        done = Ghost(a + 1);
        i = i + 1;
    }
    proof {
        assert forall|b: int| done@ <= b < n implies !#[trigger] around(edges, u as int)(b) by {
            if around(edges, u as int)(b) {
                assert(list@.contains(b as u32));
                let j = list@.index_of(b as u32);
                assert(list@[j] == b);
                if j < i - 1 {
                    assert(list@[j] < list@[i - 1]);
                }
            }
        }
        lemma_pairs_gap(edges, n as nat, u as int, done@, n as int);
    }
    (links, k)
}

/// The nodes of a list that are marked.
fn marked_of(list: &Vec<u32>, member: &Stamps, n: usize) -> (both: Vec<u32>)
    requires
        member.wf(n as nat),
        list@.no_duplicates(),
        forall|v: u32| #[trigger] list@.contains(v) ==> v < n,
    ensures
        both@.no_duplicates(),
        forall|v: u32| #[trigger]
            both@.contains(v) <==> list@.contains(v) && member.has(v as int),
{
    let mut both: Vec<u32> = Vec::new();
    let mut i: usize = 0;
    while i < list.len()
        invariant
            member.wf(n as nat),
            list@.no_duplicates(),
            forall|v: u32| #[trigger] list@.contains(v) ==> v < n,
            i <= list@.len(),
            both@.no_duplicates(),
            forall|v: u32| #[trigger]
                both@.contains(v) <==> list@.take(i as int).contains(v) && member.has(v as int),
        decreases list@.len() - i,
    {
        let v: u32 = list[i];
        let ghost before = both@;
        assert(list@.contains(v));
        let hit: bool = member.marks[v as usize] == member.token;
        if hit {
            both.push(v);
        }
        proof {
            let (a, b) = (list@.take(i as int), list@.take(i + 1));
            assert forall|x: u32| #[trigger] b.contains(x) <==> a.contains(x) || x == v by {
                if a.contains(x) {
                    let j = a.index_of(x);
                    assert(b[j] == x);
                }
                assert(b[i as int] == v);
                if b.contains(x) {
                    let j = b.index_of(x);
                    if j < i {
                        assert(a[j] == x);
                    }
                }
            }
            assert(!a.contains(v)) by {
                if a.contains(v) {
                    let j = a.index_of(v);
                    assert(list@[j] == list@[i as int]);
                }
            }
            assert forall|x: u32| #[trigger] both@.contains(x) <==> before.contains(x) || (hit && x
                == v) by {
                if before.contains(x) {
                    let j = before.index_of(x);
                    assert(both@[j] == x);
                }
                if hit {
                    assert(both@[before.len() as int] == v);
                }
            }
            if hit {
                assert(!before.contains(v));
                assert forall|p: int, q: int|
                    0 <= p < both@.len() && 0 <= q < both@.len() && p != q implies both@[p]
                    != both@[q] by {
                    if p == before.len() {
                        assert(before[q] == both@[q] && before.contains(before[q]));
                    } else if q == before.len() {
                        assert(before[p] == both@[p] && before.contains(before[p]));
                    } else {
                        assert(before[p] == both@[p] && before[q] == both@[q]);
                    }
                }
            }
        }
        i = i + 1;
    }
    assert(list@.take(i as int) =~= list@);
    both
}

/// Whether a shortest path to `w`, which is `l` steps away, can come from `v`.
pub open spec fn feeds(edges: Seq<Edge>, s: int, l: nat, v: int, w: int) -> bool {
    l > 0 && arc(edges, v, w) && at_level(edges, set![s], v, (l - 1) as nat)
}

/// The shortest paths from `s` to `w`, which is `l` steps away, whose last step
/// comes from a node below `k`. Parallel edges are one path.
pub open spec fn paths(edges: Seq<Edge>, n: nat, s: int, l: nat, w: int, k: int) -> nat
    decreases l, k,
{
    if l == 0 {
        bit(w == s)
    } else if k <= 0 {
        0
    } else {
        paths(edges, n, s, l, w, k - 1) + (if feeds(edges, s, l, k - 1, w) {
            paths(edges, n, s, (l - 1) as nat, k - 1, n as int)
        } else {
            0
        })
    }
}

proof fn lemma_paths_gap(edges: Seq<Edge>, n: nat, s: int, l: nat, w: int, lo: int, hi: int)
    requires
        0 <= lo <= hi,
        l > 0,
        forall|v: int| lo <= v < hi ==> !#[trigger] feeds(edges, s, l, v, w),
    ensures
        paths(edges, n, s, l, w, hi) == paths(edges, n, s, l, w, lo),
    decreases hi - lo,
{
    if lo < hi {
        lemma_paths_gap(edges, n, s, l, w, lo, hi - 1);
        assert(!feeds(edges, s, l, hi - 1, w));
    }
}

proof fn lemma_paths_ascend(edges: Seq<Edge>, n: nat, s: int, l: nat, w: int, lo: int, hi: int)
    requires
        0 <= lo <= hi,
    ensures
        paths(edges, n, s, l, w, lo) <= paths(edges, n, s, l, w, hi),
    decreases hi - lo,
{
    if lo < hi {
        lemma_paths_ascend(edges, n, s, l, w, lo, hi - 1);
    }
}

/// The steps of the shortest paths from one node.
pub struct ShortestSteps {
    /// The distance of each node.
    pub levels: Vec<u32>,
    /// The nodes from which the last steps come.
    pub pred: Vec<Vec<u32>>,
    /// The nodes at each distance.
    pub order: Vec<Vec<u32>>,
}

impl ShortestSteps {
    /// These are the steps of the shortest paths from `s`.
    pub open spec fn of(&self, edges: Seq<Edge>, n: nat, s: int) -> bool {
        &&& self.levels@.len() == n
        &&& self.pred@.len() == n
        &&& forall|v: int, l: nat|
            0 <= v < n ==> (#[trigger] at_level(edges, set![s], v, l) <==> self.levels@[v]
                != UNREACHED && self.levels@[v] == l)
        &&& forall|w: int|
            0 <= w < n ==> fed_by(edges, s, self.levels@[w], w, n, (#[trigger] self.pred@[w])@)
        &&& forall|l: int|
            0 <= l < self.order@.len() ==> holds_level(
                self.levels@,
                l,
                (#[trigger] self.order@[l])@,
            )
        &&& forall|v: int|
            0 <= v < n && (#[trigger] self.levels@[v]) != UNREACHED ==> self.levels@[v]
                < self.order@.len()
    }
}

/// The shortest paths from one node.
pub struct ShortestDag {
    /// The distance of each node.
    pub levels: Vec<u32>,
    /// How many shortest paths lead to each node.
    pub sigma: Vec<u64>,
    /// The nodes from which the last steps come.
    pub pred: Vec<Vec<u32>>,
    /// The nodes at each distance.
    pub order: Vec<Vec<u32>>,
}

impl ShortestDag {
    /// These are the shortest paths from `s`.
    pub open spec fn of(&self, edges: Seq<Edge>, n: nat, s: int) -> bool {
        &&& self.levels@.len() == n
        &&& self.sigma@.len() == n
        &&& self.pred@.len() == n
        &&& forall|v: int, l: nat|
            0 <= v < n ==> (#[trigger] at_level(edges, set![s], v, l) <==> self.levels@[v]
                != UNREACHED && self.levels@[v] == l)
        &&& forall|v: int|
            0 <= v < n ==> (#[trigger] self.sigma@[v]) == (if self.levels@[v] == UNREACHED {
                0
            } else {
                paths(edges, n, s, self.levels@[v] as nat, v, n as int)
            })
        &&& forall|w: int|
            0 <= w < n ==> fed_by(edges, s, self.levels@[w], w, n, (#[trigger] self.pred@[w])@)
        &&& forall|l: int|
            0 <= l < self.order@.len() ==> holds_level(
                self.levels@,
                l,
                (#[trigger] self.order@[l])@,
            )
        &&& forall|v: int|
            0 <= v < n && (#[trigger] self.levels@[v]) != UNREACHED ==> self.levels@[v]
                < self.order@.len()
    }
}

/// `list` holds the nodes from which a shortest path to `w` can come, in
/// ascending order.
pub open spec fn fed_by(
    edges: Seq<Edge>,
    s: int,
    level: u32,
    w: int,
    n: nat,
    list: Seq<u32>,
) -> bool {
    &&& nodes_ascending(list)
    &&& forall|v: u32| #[trigger]
        list.contains(v) <==> v < n && level != UNREACHED && feeds(
            edges,
            s,
            level as nat,
            v as int,
            w,
        )
}

/// `list` holds the nodes at a level, in ascending order.
pub open spec fn holds_level(levels: Seq<u32>, l: int, list: Seq<u32>) -> bool {
    &&& nodes_ascending(list)
    &&& forall|v: u32| #[trigger]
        list.contains(v) <==> v < levels.len() && levels[v as int] != UNREACHED
            && levels[v as int] == l
}

/// The nodes from which a shortest path to `w` can come.
fn feeders(snap: &CsrSnapshot, levels: &Vec<u32>, w: usize, stamps: &mut Stamps, s: Ghost<int>) -> (
list: Vec<u32>)
    requires
        snap.wf(),
        w < snap.n(),
        levels@.len() == snap.n(),
        old(stamps).wf(snap.n()),
        old(stamps).token < u64::MAX,
        forall|v: int, l: nat|
            0 <= v < snap.n() ==> (#[trigger] at_level(snap.edges@, set![s@], v, l)
                <==> levels@[v] != UNREACHED && levels@[v] == l),
    ensures
        final(stamps).wf(snap.n()),
        final(stamps).token == old(stamps).token + 1,
        fed_by(snap.edges@, s@, levels@[w as int], w as int, snap.n(), list@),
{
    let n: usize = snap.dense_to_id.len();
    let ghost edges = snap.edges@;
    let mut all: Vec<u32> = gather(snap, w, false, true, true, stamps);
    sort_nodes(&mut all);
    proof {
        assert forall|v: u32| #[trigger] all@.contains(v) <==> v < n && arc(
            edges,
            v as int,
            w as int,
        ) by {
            assert(all@.to_set().contains(v) <==> all@.contains(v));
            assert(near(edges, false, true, true, w as int)(v as int) == arc(
                edges,
                v as int,
                w as int,
            ));
        }
    }
    let mut list: Vec<u32> = Vec::new();
    let level: u32 = levels[w];
    let mut i: usize = 0;
    while i < all.len()
        invariant
            n == snap.n(),
            edges == snap.edges@,
            levels@.len() == n,
            level == levels@[w as int],
            forall|v: int, l: nat|
                0 <= v < n ==> (#[trigger] at_level(edges, set![s@], v, l) <==> levels@[v]
                    != UNREACHED && levels@[v] == l),
            nodes_ascending(all@),
            forall|v: u32| #[trigger]
                all@.contains(v) <==> v < n && arc(edges, v as int, w as int),
            i <= all@.len(),
            nodes_ascending(list@),
            forall|j: int| 0 <= j < list@.len() && i < all@.len() ==> list@[j] < all@[i as int],
            forall|v: u32| #[trigger]
                list@.contains(v) <==> all@.take(i as int).contains(v) && level != UNREACHED
                    && feeds(edges, s@, level as nat, v as int, w as int),
        decreases all@.len() - i,
    {
        let v: u32 = all[i];
        let ghost before = list@;
        assert(all@.contains(v));
        let from: u32 = levels[v as usize];
        let hit: bool = level != UNREACHED && level > 0 && from != UNREACHED && from == level - 1;
        proof {
            if level != UNREACHED && level > 0 {
                let l = (level - 1) as nat;
                assert(at_level(edges, set![s@], v as int, l) <==> from != UNREACHED && from == l);
            }
            assert(hit == (level != UNREACHED && feeds(
                edges,
                s@,
                level as nat,
                v as int,
                w as int,
            )));
        }
        if hit {
            list.push(v);
        }
        proof {
            lemma_take_step(all@, i as int, before, list@, hit);
            if i + 1 < all@.len() {
                assert(all@[i as int] < all@[i + 1]);
            }
        }
        i = i + 1;
    }
    assert(all@.take(i as int) =~= all@);
    list
}

/// The paths to a node, from those to the nodes that they come from; nothing where they
/// are more than fit.
fn add_up(
    pred: &Vec<u32>,
    sigma: &Vec<u64>,
    edges: Ghost<Seq<Edge>>,
    n: Ghost<nat>,
    s: Ghost<int>,
    level: Ghost<u32>,
    w: Ghost<int>,
) -> (r: Option<u64>)
    requires
        0 < level@ < UNREACHED,
        n@ <= u32::MAX,
        fed_by(edges@, s@, level@, w@, n@, pred@),
        sigma@.len() == n@,
        forall|v: u32|
            v < n@ && feeds(edges@, s@, level@ as nat, v as int, w@) ==> (
            #[trigger] sigma@[v as int]) == paths(
                edges@,
                n@,
                s@,
                (level@ - 1) as nat,
                v as int,
                n@ as int,
            ),
    ensures
        match r {
            Some(total) => total == paths(edges@, n@, s@, level@ as nat, w@, n@ as int),
            None => paths(edges@, n@, s@, level@ as nat, w@, n@ as int) > u64::MAX,
        },
{
    let ghost l = level@ as nat;
    let mut total: u64 = 0;
    let mut done: Ghost<int> = Ghost(0);
    let mut i: usize = 0;
    while i < pred.len()
        invariant
            0 < level@ < UNREACHED,
            n@ <= u32::MAX,
            l == level@ as nat,
            fed_by(edges@, s@, level@, w@, n@, pred@),
            sigma@.len() == n@,
            forall|v: u32|
                v < n@ && feeds(edges@, s@, l, v as int, w@) ==> (#[trigger] sigma@[v as int])
                    == paths(edges@, n@, s@, (l - 1) as nat, v as int, n@ as int),
            i <= pred@.len(),
            0 <= done@ <= n@,
            done@ == (if i == 0 {
                0
            } else {
                pred@[i - 1] + 1
            }),
            total == paths(edges@, n@, s@, l, w@, done@),
        decreases pred@.len() - i,
    {
        let v: u32 = pred[i];
        proof {
            assert(pred@.contains(v));
            assert(feeds(edges@, s@, l, v as int, w@));
            assert(done@ <= v) by {
                if i > 0 {
                    assert(pred@[i - 1] < pred@[i as int]);
                }
            }
            lemma_no_feeders(edges@, s@, level@, w@, n@, pred@, i as int, done@, v as int);
            lemma_paths_gap(edges@, n@, s@, l, w@, done@, v as int);
            lemma_paths_ascend(edges@, n@, s@, l, w@, v + 1, n@ as int);
        }
        if sigma[v as usize] > u64::MAX - total {
            return None;
        }
        total = total + sigma[v as usize];
        done = Ghost(v + 1);
        i = i + 1;
    }
    proof {
        lemma_no_feeders(edges@, s@, level@, w@, n@, pred@, i as int, done@, n@ as int);
        lemma_paths_gap(edges@, n@, s@, l, w@, done@, n@ as int);
    }
    Some(total)
}

proof fn lemma_no_feeders(
    edges: Seq<Edge>,
    s: int,
    level: u32,
    w: int,
    n: nat,
    pred: Seq<u32>,
    i: int,
    lo: int,
    hi: int,
)
    requires
        level != UNREACHED,
        fed_by(edges, s, level, w, n, pred),
        0 <= i <= pred.len(),
        n <= u32::MAX,
        0 <= lo <= hi <= n,
        i > 0 ==> lo == pred[i - 1] + 1,
        i < pred.len() ==> hi == pred[i],
    ensures
        forall|v: int| lo <= v < hi ==> !#[trigger] feeds(edges, s, level as nat, v, w),
{
    assert forall|v: int| lo <= v < hi implies !#[trigger] feeds(edges, s, level as nat, v, w) by {
        if feeds(edges, s, level as nat, v, w) {
            assert(pred.contains(v as u32));
            let j = pred.index_of(v as u32);
            assert(pred[j] == v);
            if j < i - 1 {
                assert(pred[j] < pred[i - 1]);
            } else if j > i {
                assert(pred[i] < pred[j]);
            }
        }
    }
}

/// No node has more shortest paths than fit.
pub open spec fn paths_fit(edges: Seq<Edge>, n: nat, s: int) -> bool {
    forall|v: int, l: nat|
        0 <= v < n && #[trigger] at_level(edges, set![s], v, l) ==> paths(
            edges,
            n,
            s,
            l,
            v,
            n as int,
        ) <= u64::MAX
}

/// The nodes at each level.
fn by_level(levels: &Vec<u32>, n: usize, deepest: Ghost<nat>) -> (order: Vec<Vec<u32>>)
    requires
        levels@.len() == n,
        n < u32::MAX,
        forall|v: int|
            0 <= v < n && (#[trigger] levels@[v]) != UNREACHED ==> levels@[v] <= deepest@,
        deepest@ <= n,
    ensures
        forall|l: int|
            0 <= l < order@.len() ==> holds_level(levels@, l, (#[trigger] order@[l])@),
        forall|v: int|
            0 <= v < n && (#[trigger] levels@[v]) != UNREACHED ==> levels@[v] < order@.len(),
{
    let mut order: Vec<Vec<u32>> = Vec::new();
    let mut v: usize = 0;
    while v < n
        invariant
            levels@.len() == n,
            n < u32::MAX,
            forall|u: int|
                0 <= u < n && (#[trigger] levels@[u]) != UNREACHED ==> levels@[u] <= deepest@,
            deepest@ <= n,
            v <= n,
            order@.len() <= n + 1,
            forall|l: int|
                0 <= l < order@.len() ==> holds_level(
                    levels@.take(v as int),
                    l,
                    (#[trigger] order@[l])@,
                ),
            forall|u: int|
                0 <= u < v && (#[trigger] levels@[u]) != UNREACHED ==> levels@[u] < order@.len(),
        decreases n - v,
    {
        let level: u32 = levels[v];
        let ghost first = order@;
        if level != UNREACHED {
            while order.len() <= level as usize
                invariant
                    level <= deepest@ <= n,
                    v < n,
                    levels@.len() == n,
                    first.len() <= order@.len() <= n + 1,
                    forall|u: int|
                        0 <= u < v && (#[trigger] levels@[u]) != UNREACHED ==> levels@[u]
                            < first.len(),
                    forall|l: int|
                        0 <= l < order@.len() ==> holds_level(
                            levels@.take(v as int),
                            l,
                            (#[trigger] order@[l])@,
                        ),
                decreases level + 1 - order@.len(),
            {
                let none: Vec<u32> = Vec::new();
                proof {
                    assert forall|x: u32| !(x < v && levels@.take(v as int)[x as int] != UNREACHED
                        && levels@.take(v as int)[x as int] == order@.len()) by {
                        if x < v {
                            assert(levels@.take(v as int)[x as int] == levels@[x as int]);
                        }
                    }
                    assert(holds_level(levels@.take(v as int), order@.len() as int, none@));
                }
                order.push(none);
            }
        }
        let ghost grown = order@;
        if level != UNREACHED {
            let mut list: Vec<u32> = Vec::new();
            list.append(&mut order[level as usize]);
            let ghost had = list@;
            assert(had == grown[level as int]@);
            list.push(v as u32);
            proof {
                assert(holds_level(levels@.take(v as int), level as int, had));
                assert forall|x: u32| #[trigger] list@.contains(x) <==> had.contains(x) || x
                    == v by {
                    if had.contains(x) {
                        let j = had.index_of(x);
                        assert(list@[j] == x);
                    }
                    assert(list@[had.len() as int] == v);
                }
                assert forall|j: int| 0 <= j < had.len() implies had[j] < v by {
                    assert(had.contains(had[j]));
                }
                assert(nodes_ascending(list@));
            }
            order.set(level as usize, list);
        }
        proof {
            assert forall|l: int| 0 <= l < order@.len() implies holds_level(
                levels@.take(v + 1),
                l,
                (#[trigger] order@[l])@,
            ) by {
                assert(holds_level(levels@.take(v as int), l, grown[l]@));
                assert forall|x: u32| #[trigger]
                    order@[l]@.contains(x) <==> x < v + 1 && levels@.take(v + 1)[x as int]
                        != UNREACHED && levels@.take(v + 1)[x as int] == l by {
                    if x < v {
                        assert(levels@.take(v + 1)[x as int] == levels@.take(v as int)[x as int]);
                    }
                    assert(grown[l]@.contains(x) <==> x < v && levels@.take(v as int)[x as int]
                        != UNREACHED && levels@.take(v as int)[x as int] == l);
                }
            }
        }
        v = v + 1;
    }
    assert(levels@.take(v as int) =~= levels@);
    order
}

/// The steps of the shortest paths from a node. Parallel edges are one step.
pub fn shortest_steps(snap: &CsrSnapshot, s: u32) -> (steps: ShortestSteps)
    requires
        snap.wf(),
        s < snap.n(),
    ensures
        steps.of(snap.edges@, snap.n(), s as int),
{
    let n: usize = snap.dense_to_id.len();
    let ghost edges = snap.edges@;
    let ghost from = set![s as int];
    let levels: Vec<u32> = hop_distances(snap, s, None);
    let ghost h = choose|h: nat|
        #[trigger] levels_to(levels@, edges, from, h) && h <= n && within(edges, from, h + 1)
            == within(edges, from, h);
    proof {
        assert forall|v: int, l: nat|
            0 <= v < n implies (#[trigger] at_level(edges, from, v, l) <==> levels@[v] != UNREACHED
            && levels@[v] == l) by {
            let level = levels@[v];
            if level == UNREACHED {
                if at_level(edges, from, v, l) {
                    if l <= h {
                        lemma_within_mono(edges, from, l, h);
                    } else {
                        lemma_within_closed(edges, from, h, l);
                    }
                }
            } else if at_level(edges, from, v, l) {
                lemma_level_unique(edges, from, v, l, level as nat);
            }
        }
    }
    let order: Vec<Vec<u32>> = by_level(&levels, n, Ghost(h));
    let mut stamps: Stamps = Stamps::new(n);
    let mut pred: Vec<Vec<u32>> = Vec::new();
    let mut w: usize = 0;
    while w < n
        invariant
            snap.wf(),
            n == snap.n(),
            edges == snap.edges@,
            from == set![s as int],
            levels@.len() == n,
            forall|v: int, l: nat|
                0 <= v < n ==> (#[trigger] at_level(edges, from, v, l) <==> levels@[v]
                    != UNREACHED && levels@[v] == l),
            stamps.wf(n as nat),
            stamps.token == w,
            w <= n,
            pred@.len() == w,
            forall|u: int|
                0 <= u < w ==> fed_by(edges, s as int, levels@[u], u, n as nat, (
                #[trigger] pred@[u])@),
        decreases n - w,
    {
        let list: Vec<u32> = feeders(snap, &levels, w, &mut stamps, Ghost(s as int));
        pred.push(list);
        w = w + 1;
    }
    ShortestSteps { levels, pred, order }
}

/// The shortest paths from a node: distances, counts and the steps that they
/// come from; nothing where some node has more of them than fit. Parallel edges are one
/// step.
pub fn shortest_dag(snap: &CsrSnapshot, s: u32) -> (r: Option<ShortestDag>)
    requires
        snap.wf(),
        s < snap.n(),
    ensures
        r is Some <==> paths_fit(snap.edges@, snap.n(), s as int),
        r matches Some(dag) ==> dag.of(snap.edges@, snap.n(), s as int),
{
    let n: usize = snap.dense_to_id.len();
    let ghost edges = snap.edges@;
    let ghost from = set![s as int];
    let steps: ShortestSteps = shortest_steps(snap, s);
    let ShortestSteps { levels, pred, order } = steps;
    let mut sigma: Vec<u64> = vec![0; n];
    let mut l: usize = 0;
    while l < order.len()
        invariant
            snap.wf(),
            n == snap.n(),
            edges == snap.edges@,
            from == set![s as int],
            s < n,
            levels@.len() == n,
            pred@.len() == n,
            sigma@.len() == n,
            forall|v: int, k: nat|
                0 <= v < n ==> (#[trigger] at_level(edges, from, v, k) <==> levels@[v]
                    != UNREACHED && levels@[v] == k),
            forall|k: int|
                0 <= k < order@.len() ==> holds_level(levels@, k, (#[trigger] order@[k])@),
            forall|u: int|
                0 <= u < n ==> fed_by(edges, s as int, levels@[u], u, n as nat, (
                #[trigger] pred@[u])@),
            l <= order@.len(),
            forall|v: int|
                0 <= v < n ==> (#[trigger] sigma@[v]) == (if levels@[v] != UNREACHED && levels@[v]
                    < l {
                    paths(edges, n as nat, s as int, levels@[v] as nat, v, n as int)
                } else {
                    0
                }),
        decreases order@.len() - l,
    {
        let ghost start = sigma@;
        assert(holds_level(levels@, l as int, order@[l as int]@));
        let mut i: usize = 0;
        while i < order[l].len()
            invariant
                snap.wf(),
                n == snap.n(),
                edges == snap.edges@,
                from == set![s as int],
                s < n,
                levels@.len() == n,
                pred@.len() == n,
                sigma@.len() == n,
                forall|v: int, k: nat|
                    0 <= v < n ==> (#[trigger] at_level(edges, from, v, k) <==> levels@[v]
                        != UNREACHED && levels@[v] == k),
                forall|u: int|
                    0 <= u < n ==> fed_by(edges, s as int, levels@[u], u, n as nat, (
                    #[trigger] pred@[u])@),
                l < order@.len(),
                holds_level(levels@, l as int, order@[l as int]@),
                i <= order@[l as int]@.len(),
                start.len() == n,
                forall|v: int|
                    0 <= v < n ==> (#[trigger] start[v]) == (if levels@[v] != UNREACHED
                        && levels@[v] < l {
                        paths(edges, n as nat, s as int, levels@[v] as nat, v, n as int)
                    } else {
                        0
                    }),
                forall|v: int|
                    0 <= v < n ==> (#[trigger] sigma@[v]) == (if order@[l as int]@.take(
                        i as int,
                    ).contains(v as u32) {
                        paths(edges, n as nat, s as int, l as nat, v, n as int)
                    } else {
                        start[v] as nat
                    }),
            decreases order@[l as int]@.len() - i,
        {
            let w: u32 = order[l][i];
            let ghost before = sigma@;
            proof {
                assert(order@[l as int]@.contains(w));
                assert(at_level(edges, from, w as int, l as nat));
            }
            let total: u64;
            if l == 0 {
                total = if w == s {
                    1
                } else {
                    0
                };
            } else {
                proof {
                    assert(fed_by(
                        edges,
                        s as int,
                        levels@[w as int],
                        w as int,
                        n as nat,
                        pred@[w as int]@,
                    ));
                    assert forall|v: u32|
                        v < n && feeds(edges, s as int, l as nat, v as int, w as int) implies (
                    #[trigger] sigma@[v as int]) == paths(
                        edges,
                        n as nat,
                        s as int,
                        (l - 1) as nat,
                        v as int,
                        n as int,
                    ) by {
                        assert(at_level(edges, from, v as int, (l - 1) as nat));
                        let part = order@[l as int]@.take(i as int);
                        if part.contains(v) {
                            let j = part.index_of(v);
                            assert(order@[l as int]@[j] == v);
                            assert(order@[l as int]@.contains(v));
                        }
                        assert(start[v as int] == paths(
                            edges,
                            n as nat,
                            s as int,
                            (l - 1) as nat,
                            v as int,
                            n as int,
                        ));
                    }
                }
                let sum: Option<u64> = add_up(
                    &pred[w as usize],
                    &sigma,
                    Ghost(edges),
                    Ghost(n as nat),
                    Ghost(s as int),
                    Ghost(levels@[w as int]),
                    Ghost(w as int),
                );
                total =
                match sum {
                    Some(total) => total,
                    None => {
                        assert(at_level(edges, from, w as int, l as nat));
                        return None;
                    },
                };
            }
            sigma.set(w as usize, total);
            proof {
                let (a, b) = (order@[l as int]@.take(i as int), order@[l as int]@.take(i + 1));
                assert forall|v: int| 0 <= v < n implies (#[trigger] sigma@[v]) == (if b.contains(
                    v as u32,
                ) {
                    paths(edges, n as nat, s as int, l as nat, v, n as int)
                } else {
                    start[v] as nat
                }) by {
                    let x = v as u32;
                    if a.contains(x) {
                        let j = a.index_of(x);
                        assert(b[j] == x);
                    }
                    assert(b[i as int] == w);
                    if b.contains(x) {
                        let j = b.index_of(x);
                        if j < i {
                            assert(a[j] == x);
                        }
                    }
                    assert(before[v] == (if a.contains(x) {
                        paths(edges, n as nat, s as int, l as nat, v, n as int)
                    } else {
                        start[v] as nat
                    }));
                }
            }
            i = i + 1;
        }
        proof {
            let list = order@[l as int]@;
            assert(list.take(i as int) =~= list);
            assert forall|v: int| 0 <= v < n implies (#[trigger] sigma@[v]) == (if levels@[v]
                != UNREACHED && levels@[v] < l + 1 {
                paths(edges, n as nat, s as int, levels@[v] as nat, v, n as int)
            } else {
                0
            }) by {
                assert(list.contains(v as u32) <==> levels@[v] != UNREACHED && levels@[v] == l);
            }
        }
        l = l + 1;
    }
    let dag: ShortestDag = ShortestDag { levels, sigma, pred, order };
    proof {
        assert forall|v: int| 0 <= v < n implies (#[trigger] dag.sigma@[v]) == (if dag.levels@[v]
            == UNREACHED {
            0
        } else {
            paths(edges, n as nat, s as int, dag.levels@[v] as nat, v, n as int)
        }) by {
            assert(levels@[v] != UNREACHED ==> levels@[v] < order@.len());
        }
        assert forall|v: int, l: nat|
            0 <= v < n && #[trigger] at_level(edges, from, v, l) implies paths(
            edges,
            n as nat,
            s as int,
            l,
            v,
            n as int,
        ) <= u64::MAX by {
            assert(dag.sigma@[v] == paths(
                edges,
                n as nat,
                s as int,
                dag.levels@[v] as nat,
                v,
                n as int,
            ));
        }
    }
    Some(dag)
}

} // verus!
