//! Level-synchronous traversal over the outgoing rows.

use vstd::prelude::*;

use crate::counting::{type_admits, type_ok};
use crate::csr::{ascending, entering, leaving, CsrSnapshot, Edge};
use crate::schema::{EdgeId, NodeId, TypeId};
use crate::sums::{bit, count, lemma_count_bound, lemma_sum_update};
use crate::typed_adj::{nodes_ascending, sort_nodes};

verus! {

/// Largest source-set size for which typed expansion over a stale snapshot is
/// served from per-source reads instead of paying a refresh.
pub const STALE_POINT_EXPAND_MAX: usize = 64;

/// Hop level standing for a dense index that a search has not reached.
pub const UNREACHED: u32 = u32::MAX;

/// Whether some edge leads from `u` to `v`.
pub open spec fn arc(edges: Seq<Edge>, u: int, v: int) -> bool {
    exists|k: int|
        0 <= k < edges.len() && (#[trigger] edges[k]).src == u && edges[k].dst == v
}

/// `s` with everything one step away from it.
pub open spec fn grow(edges: Seq<Edge>, s: Set<int>) -> Set<int> {
    Set::new(|v: int| s.contains(v) || exists|u: int| s.contains(u) && #[trigger] arc(edges, u, v))
}

/// The nodes within `k` outgoing steps of `seeds`.
pub open spec fn within(edges: Seq<Edge>, seeds: Set<int>, k: nat) -> Set<int>
    decreases k,
{
    if k == 0 {
        seeds
    } else {
        grow(edges, within(edges, seeds, (k - 1) as nat))
    }
}

/// `v` is `l` steps away from `seeds`, and no fewer.
pub open spec fn at_level(edges: Seq<Edge>, seeds: Set<int>, v: int, l: nat) -> bool {
    &&& within(edges, seeds, l).contains(v)
    &&& l > 0 ==> !within(edges, seeds, (l - 1) as nat).contains(v)
}

/// `v` can be reached from `seeds`.
pub open spec fn reachable(edges: Seq<Edge>, seeds: Set<int>, v: int) -> bool {
    exists|k: nat| #[trigger] within(edges, seeds, k).contains(v)
}

/// `levels` holds the distance of every node within `h` steps, and of no other.
pub open spec fn levels_to(levels: Seq<u32>, edges: Seq<Edge>, seeds: Set<int>, h: nat) -> bool {
    forall|v: int|
        0 <= v < levels.len() ==> {
            &&& (#[trigger] levels[v] != UNREACHED <==> within(edges, seeds, h).contains(v))
            &&& levels[v] != UNREACHED ==> levels[v] <= h && at_level(
                edges,
                seeds,
                v,
                levels[v] as nat,
            )
        }
}

/// The predicate that holds of a recorded level.
pub open spec fn recorded() -> spec_fn(u32) -> bool {
    |l: u32| l != UNREACHED
}

pub proof fn lemma_within_mono(edges: Seq<Edge>, seeds: Set<int>, j: nat, k: nat)
    requires
        j <= k,
    ensures
        within(edges, seeds, j).subset_of(within(edges, seeds, k)),
    decreases k,
{
    if j < k {
        lemma_within_mono(edges, seeds, j, (k - 1) as nat);
    }
}

/// Once a step adds nothing, nothing more can be reached.
pub proof fn lemma_within_closed(edges: Seq<Edge>, seeds: Set<int>, h: nat, k: nat)
    requires
        within(edges, seeds, h + 1) == within(edges, seeds, h),
        h <= k,
    ensures
        within(edges, seeds, k) == within(edges, seeds, h),
    decreases k,
{
    if h < k {
        lemma_within_closed(edges, seeds, h, (k - 1) as nat);
    }
}

/// A node is at one level only.
pub proof fn lemma_level_unique(edges: Seq<Edge>, seeds: Set<int>, v: int, j: nat, k: nat)
    requires
        at_level(edges, seeds, v, j),
        at_level(edges, seeds, v, k),
    ensures
        j == k,
{
    if j < k {
        lemma_within_mono(edges, seeds, j, (k - 1) as nat);
    } else if k < j {
        lemma_within_mono(edges, seeds, k, (j - 1) as nat);
    }
}

/// What a node one level further in leads to is at most one level away.
pub proof fn lemma_within_step(edges: Seq<Edge>, seeds: Set<int>, u: int, v: int, k: nat)
    requires
        within(edges, seeds, k).contains(u),
        arc(edges, u, v),
    ensures
        within(edges, seeds, k + 1).contains(v),
{
    assert(within(edges, seeds, k + 1) == grow(edges, within(edges, seeds, k)));
}

/// A node of a level beyond the first has a predecessor one level closer.
pub proof fn lemma_level_pred(edges: Seq<Edge>, seeds: Set<int>, v: int, l: nat) -> (u: int)
    requires
        at_level(edges, seeds, v, l),
        l > 0,
    ensures
        arc(edges, u, v),
        at_level(edges, seeds, u, (l - 1) as nat),
{
    let prev = within(edges, seeds, (l - 1) as nat);
    assert(grow(edges, prev).contains(v));
    let u = choose|u: int| prev.contains(u) && #[trigger] arc(edges, u, v);
    if l > 1 && within(edges, seeds, (l - 2) as nat).contains(u) {
        lemma_within_step(edges, seeds, u, v, (l - 2) as nat);
    }
    u
}

/// The reach of in-range seeds stays in range.
pub proof fn lemma_within_range(edges: Seq<Edge>, seeds: Set<int>, k: nat, n: int)
    requires
        forall|i: int| 0 <= i < edges.len() ==> 0 <= (#[trigger] edges[i]).dst < n,
        forall|v: int| seeds.contains(v) ==> 0 <= v < n,
    ensures
        forall|v: int| #[trigger] within(edges, seeds, k).contains(v) ==> 0 <= v < n,
    decreases k,
{
    if k > 0 {
        lemma_within_range(edges, seeds, (k - 1) as nat, n);
        assert forall|v: int| #[trigger] within(edges, seeds, k).contains(v) implies 0 <= v
            < n by {
            if !within(edges, seeds, (k - 1) as nat).contains(v) {
                let u = choose|u: int|
                    within(edges, seeds, (k - 1) as nat).contains(u) && #[trigger] arc(
                        edges,
                        u,
                        v,
                    );
                let i = choose|i: int|
                    0 <= i < edges.len() && (#[trigger] edges[i]).src == u && edges[i].dst == v;
            }
        }
    }
}

impl CsrSnapshot {
    /// A slot of row `u` is an arc from `u`.
    pub proof fn lemma_slot_is_arc(&self, u: int, k: int)
        requires
            self.wf(),
            0 <= u < self.n(),
            self.row_ptr@[u] <= k < self.row_ptr@[u + 1],
        ensures
            arc(self.edges@, u, self.col_idx@[k] as int),
    {
        let row = self.out_row(u);
        let e = row[k - self.row_ptr@[u]];
        assert(row == self.edges@.filter(leaving(u)));
        assert(row.contains(e));
        self.edges@.lemma_filter_contains_rev(leaving(u), e);
        let i = choose|i: int| 0 <= i < self.edges@.len() && self.edges@[i] == e;
        assert(self.edges@[i].src == u && self.edges@[i].dst == self.col_idx@[k]);
    }

    /// Every arc from `u` has a slot in row `u`.
    pub proof fn lemma_arc_has_slot(&self, u: int, v: int) -> (k: int)
        requires
            self.wf(),
            0 <= u < self.n(),
            arc(self.edges@, u, v),
        ensures
            self.row_ptr@[u] <= k < self.row_ptr@[u + 1],
            self.col_idx@[k] == v,
    {
        let row = self.out_row(u);
        let i = choose|i: int|
            0 <= i < self.edges@.len() && (#[trigger] self.edges@[i]).src == u && self.edges@[i].dst
                == v;
        assert(row == self.edges@.filter(leaving(u)));
        self.edges@.lemma_filter_contains(leaving(u), i);
        let j = choose|j: int| 0 <= j < row.len() && row[j] == self.edges@[i];
        self.row_ptr@[u] + j
    }

    /// A slot of the transposed row `v` is an arc into `v`.
    pub proof fn lemma_in_slot_is_arc(&self, v: int, k: int)
        requires
            self.wf(),
            0 <= v < self.n(),
            self.in_row_ptr@[v] <= k < self.in_row_ptr@[v + 1],
        ensures
            arc(self.edges@, self.in_col_idx@[k] as int, v),
    {
        let row = self.in_row(v);
        let e = row[k - self.in_row_ptr@[v]];
        assert(row == self.edges@.filter(entering(v)));
        assert(row.contains(e));
        self.edges@.lemma_filter_contains_rev(entering(v), e);
        let i = choose|i: int| 0 <= i < self.edges@.len() && self.edges@[i] == e;
        assert(self.edges@[i].dst == v && self.edges@[i].src == self.in_col_idx@[k]);
    }

    /// Every arc into `v` has a slot in the transposed row `v`.
    pub proof fn lemma_arc_has_in_slot(&self, u: int, v: int) -> (k: int)
        requires
            self.wf(),
            0 <= v < self.n(),
            arc(self.edges@, u, v),
        ensures
            self.in_row_ptr@[v] <= k < self.in_row_ptr@[v + 1],
            self.in_col_idx@[k] == u,
    {
        let row = self.in_row(v);
        let i = choose|i: int|
            0 <= i < self.edges@.len() && (#[trigger] self.edges@[i]).src == u && self.edges@[i].dst
                == v;
        assert(row == self.edges@.filter(entering(v)));
        self.edges@.lemma_filter_contains(entering(v), i);
        let j = choose|j: int| 0 <= j < row.len() && row[j] == self.edges@[i];
        self.in_row_ptr@[v] + j
    }
}

/// Whether some node of `frontier[..i]` leads to `v`.
pub open spec fn fed(edges: Seq<Edge>, frontier: Seq<u32>, i: int, v: int) -> bool {
    exists|a: int| 0 <= a < i && #[trigger] arc(edges, frontier[a] as int, v)
}

/// Whether `v` is among the targets of the slots `lo..hi`.
pub open spec fn in_slots(col: Seq<u32>, lo: int, hi: int, v: int) -> bool {
    exists|k: int| lo <= k < hi && #[trigger] col[k] == v
}

/// Advances a breadth-first search by one level.
///
/// Marks every unreached neighbor of `frontier` at `hop` in `levels` and leaves
/// them in `next`, in ascending dense order.
pub fn expand_frontier(
    snap: &CsrSnapshot,
    frontier: &Vec<u32>,
    hop: u32,
    levels: &mut Vec<u32>,
    next: &mut Vec<u32>,
)
    requires
        snap.wf(),
        old(levels)@.len() == snap.n(),
        hop != UNREACHED,
        forall|i: int| 0 <= i < frontier@.len() ==> (#[trigger] frontier@[i]) < snap.n(),
    ensures
        final(levels)@.len() == snap.n(),
        forall|v: int|
            0 <= v < snap.n() ==> #[trigger] final(levels)@[v] == (if old(levels)@[v] == UNREACHED
                && fed(snap.edges@, frontier@, frontier@.len() as int, v) {
                hop
            } else {
                old(levels)@[v]
            }),
        nodes_ascending(final(next)@),
        forall|v: u32|
            #![trigger final(next)@.contains(v)]
            final(next)@.contains(v) <==> v < snap.n() && old(levels)@[v as int] == UNREACHED
                && fed(snap.edges@, frontier@, frontier@.len() as int, v as int),
        count(final(levels)@, recorded()) == count(old(levels)@, recorded()) + final(next)@.len(),
{
    let ghost start = levels@;
    let ghost w = |l: u32| bit(recorded()(l));
    next.clear();
    let mut i: usize = 0;
    while i < frontier.len()
        invariant
            snap.wf(),
            start == old(levels)@,
            start.len() == snap.n(),
            levels@.len() == snap.n(),
            hop != UNREACHED,
            w == (|l: u32| bit(recorded()(l))),
            forall|a: int| 0 <= a < frontier@.len() ==> (#[trigger] frontier@[a]) < snap.n(),
            i <= frontier@.len(),
            forall|v: int|
                0 <= v < snap.n() ==> #[trigger] levels@[v] == (if start[v] == UNREACHED && fed(
                    snap.edges@,
                    frontier@,
                    i as int,
                    v,
                ) {
                    hop
                } else {
                    start[v]
                }),
            next@.no_duplicates(),
            forall|v: u32|
                #![trigger next@.contains(v)]
                next@.contains(v) <==> v < snap.n() && start[v as int] == UNREACHED
                    && levels@[v as int] != UNREACHED,
            count(levels@, recorded()) == count(start, recorded()) + next@.len(),
        decreases frontier@.len() - i,
    {
        let u: usize = frontier[i] as usize;
        let lo: usize = snap.row_ptr[u];
        let hi: usize = snap.row_ptr[u + 1];
        let mut k: usize = lo;
        while k < hi
            invariant
                snap.wf(),
                start.len() == snap.n(),
                levels@.len() == snap.n(),
                hop != UNREACHED,
                w == (|l: u32| bit(recorded()(l))),
                i < frontier@.len(),
                u == frontier@[i as int],
                u < snap.n(),
                lo == snap.row_ptr@[u as int],
                hi == snap.row_ptr@[u + 1],
                lo <= k <= hi <= snap.edges@.len(),
                forall|v: int|
                    0 <= v < snap.n() ==> #[trigger] levels@[v] == (if start[v] == UNREACHED && (
                    fed(snap.edges@, frontier@, i as int, v) || in_slots(
                        snap.col_idx@,
                        lo as int,
                        k as int,
                        v,
                    )) {
                        hop
                    } else {
                        start[v]
                    }),
                next@.no_duplicates(),
                forall|v: u32|
                    #![trigger next@.contains(v)]
                    next@.contains(v) <==> v < snap.n() && start[v as int] == UNREACHED
                        && levels@[v as int] != UNREACHED,
                count(levels@, recorded()) == count(start, recorded()) + next@.len(),
            decreases hi - k,
        {
            let v: u32 = snap.col_idx[k];
            let ghost levels0 = levels@;
            let ghost next0 = next@;
            proof {
                assert(in_slots(snap.col_idx@, lo as int, k + 1, v as int)) by {
                    assert(snap.col_idx@[k as int] == v);
                }
                assert forall|x: int|
                    in_slots(snap.col_idx@, lo as int, k + 1, x) implies x == v || in_slots(
                    snap.col_idx@,
                    lo as int,
                    k as int,
                    x,
                ) by {
                    let q = choose|q: int| lo <= q < k + 1 && #[trigger] snap.col_idx@[q] == x;
                    if q < k {
                        assert(in_slots(snap.col_idx@, lo as int, k as int, x));
                    }
                }
                assert forall|x: int|
                    in_slots(snap.col_idx@, lo as int, k as int, x) implies in_slots(
                    snap.col_idx@,
                    lo as int,
                    k + 1,
                    x,
                ) by {
                    let q = choose|q: int| lo <= q < k && #[trigger] snap.col_idx@[q] == x;
                }
            }
            if levels[v as usize] == UNREACHED {
                levels.set(v as usize, hop);
                next.push(v);
                proof {
                    lemma_sum_update(levels0, v as int, hop, w);
                    assert(!next0.contains(v));
                    assert forall|x: u32| #![trigger next@.contains(x)]
                        next@.contains(x) <==> next0.contains(x) || x == v by {
                        if next0.contains(x) {
                            let q = choose|q: int| 0 <= q < next0.len() && next0[q] == x;
                            assert(next@[q] == x);
                        }
                        if x == v {
                            assert(next@[next0.len() as int] == x);
                        }
                    }
                }
            }
            k = k + 1;
        }
        proof {
            assert forall|v: int| 0 <= v < snap.n() implies (fed(
                snap.edges@,
                frontier@,
                i + 1,
                v,
            ) <==> fed(snap.edges@, frontier@, i as int, v) || in_slots(
                snap.col_idx@,
                lo as int,
                hi as int,
                v,
            )) by {
                if in_slots(snap.col_idx@, lo as int, hi as int, v) {
                    let q = choose|q: int| lo <= q < hi && #[trigger] snap.col_idx@[q] == v;
                    snap.lemma_slot_is_arc(u as int, q);
                    assert(arc(snap.edges@, frontier@[i as int] as int, v));
                }
                if fed(snap.edges@, frontier@, i + 1, v) {
                    let a = choose|a: int|
                        0 <= a < i + 1 && #[trigger] arc(snap.edges@, frontier@[a] as int, v);
                    if a == i {
                        let q = snap.lemma_arc_has_slot(u as int, v);
                        assert(snap.col_idx@[q] == v);
                    }
                }
                if fed(snap.edges@, frontier@, i as int, v) {
                    let a = choose|a: int|
                        0 <= a < i && #[trigger] arc(snap.edges@, frontier@[a] as int, v);
                    assert(arc(snap.edges@, frontier@[a] as int, v));
                }
            }
        }
        i = i + 1;
    }
    let ghost unsorted = next@;
    sort_nodes(next);
    proof {
        assert forall|v: u32| #![trigger next@.contains(v)] next@.contains(v)
            <==> unsorted.contains(v) by {
            assert(next@.to_set().contains(v) <==> unsorted.to_set().contains(v));
        }
    }
}

/// The node ids that a search reached, in ascending order.
pub fn reached_in_order(snap: &CsrSnapshot, levels: &Vec<u32>) -> (out: Vec<NodeId>)
    requires
        snap.wf(),
        levels@.len() == snap.n(),
    ensures
        ascending(out@),
        out@.len() == count(levels@, recorded()),
        forall|d: int|
            0 <= d < snap.n() ==> (out@.contains(#[trigger] snap.dense_to_id@[d]) <==> levels@[d]
                != UNREACHED),
        forall|i: int| 0 <= i < out@.len() ==> snap.dense_to_id@.contains(#[trigger] out@[i]),
{
    let ghost w = |l: u32| bit(recorded()(l));
    let mut out: Vec<NodeId> = Vec::new();
    let mut d: usize = 0;
    assert(levels@.take(0) =~= Seq::empty());
    while d < levels.len()
        invariant
            snap.wf(),
            levels@.len() == snap.n(),
            w == (|l: u32| bit(recorded()(l))),
            d <= levels@.len(),
            ascending(out@),
            out@.len() == count(levels@.take(d as int), recorded()),
            forall|c: int|
                0 <= c < d ==> (out@.contains(#[trigger] snap.dense_to_id@[c]) <==> levels@[c]
                    != UNREACHED),
            forall|i: int|
                0 <= i < out@.len() ==> snap.dense_to_id@.take(d as int).contains(
                    #[trigger] out@[i],
                ),
        decreases levels@.len() - d,
    {
        let ghost out0 = out@;
        proof {
            crate::sums::lemma_sum_take(levels@, d as int, w);
            assert(!out0.contains(snap.dense_to_id@[d as int])) by {
                if out0.contains(snap.dense_to_id@[d as int]) {
                    let i = choose|i: int| 0 <= i < out0.len() && out0[i]
                        == snap.dense_to_id@[d as int];
                    let c = choose|c: int|
                        0 <= c < d && snap.dense_to_id@.take(d as int)[c] == out0[i];
                    assert(snap.dense_to_id@[c] < snap.dense_to_id@[d as int]);
                }
            }
        }
        if levels[d] != UNREACHED {
            let id: NodeId = snap.dense_to_id[d];
            out.push(id);
            proof {
                assert forall|i: int, j: int| 0 <= i < j < out@.len() implies out@[i]
                    < out@[j] by {
                    if j == out0.len() {
                        assert(snap.dense_to_id@.take(d as int).contains(out0[i]));
                        let c = choose|c: int|
                            0 <= c < d && snap.dense_to_id@.take(d as int)[c] == out0[i];
                        assert(snap.dense_to_id@[c] < snap.dense_to_id@[d as int]);
                    }
                }
                assert(out@[out0.len() as int] == id);
                assert forall|c: int| 0 <= c < d + 1 implies (out@.contains(
                    #[trigger] snap.dense_to_id@[c],
                ) <==> levels@[c] != UNREACHED) by {
                    let x = snap.dense_to_id@[c];
                    if c < d {
                        assert(x != id);
                        if out0.contains(x) {
                            let i = choose|i: int| 0 <= i < out0.len() && out0[i] == x;
                            assert(out@[i] == x);
                        }
                        if out@.contains(x) {
                            let i = choose|i: int| 0 <= i < out@.len() && out@[i] == x;
                            assert(out0[i] == x);
                        }
                    }
                }
            }
        }
        proof {
            assert forall|i: int| 0 <= i < out@.len() implies snap.dense_to_id@.take(
                d + 1,
            ).contains(#[trigger] out@[i]) by {
                let next = snap.dense_to_id@.take(d + 1);
                if i < out0.len() {
                    assert(snap.dense_to_id@.take(d as int).contains(out0[i]));
                    let c = choose|c: int|
                        0 <= c < d && snap.dense_to_id@.take(d as int)[c] == out0[i];
                    assert(next[c] == out@[i]);
                } else {
                    assert(next[d as int] == out@[i]);
                }
            }
        }
        d = d + 1;
    }
    assert(levels@.take(levels@.len() as int) =~= levels@);
    assert(snap.dense_to_id@.take(d as int) =~= snap.dense_to_id@);
    out
}

/// The predicate that holds of the members of `s`.
pub open spec fn member(s: Set<int>) -> spec_fn(int) -> bool {
    |v: int| s.contains(v)
}

/// How many of the nodes `0..n` are in `s`.
pub open spec fn size(s: Set<int>, n: nat) -> nat {
    count(crate::sums::upto(n), member(s))
}

proof fn lemma_size_is_count(levels: Seq<u32>, s: Set<int>)
    requires
        forall|v: int| 0 <= v < levels.len() ==> (#[trigger] levels[v] != UNREACHED <==> s.contains(
            v,
        )),
    ensures
        count(levels, recorded()) == size(s, levels.len()),
{
    let n = levels.len();
    let all = crate::sums::upto(n);
    let at = |d: int| levels[d];
    let w = |l: u32| bit(recorded()(l));
    let m = |d: int| bit(member(s)(d));
    assert(levels =~= all.map_values(at));
    crate::sums::lemma_sum_map(all, at, w);
    assert forall|i: int| 0 <= i < all.len() implies (|d: int| w(at(d)))(#[trigger] all[i]) == m(
        all[i],
    ) by {}
    crate::sums::lemma_sum_ext(all, |d: int| w(at(d)), m);
}

/// One expansion takes the recorded levels one step further.
proof fn lemma_advance(
    snap: CsrSnapshot,
    seeds: Set<int>,
    h: nat,
    before: Seq<u32>,
    frontier: Seq<u32>,
    after: Seq<u32>,
)
    requires
        snap.wf(),
        before.len() == snap.n(),
        after.len() == snap.n(),
        h + 1 < UNREACHED,
        forall|v: int| seeds.contains(v) ==> 0 <= v < snap.n(),
        levels_to(before, snap.edges@, seeds, h),
        forall|v: u32|
            #![trigger frontier.contains(v)]
            frontier.contains(v) <==> v < snap.n() && before[v as int] == h,
        forall|v: int|
            0 <= v < snap.n() ==> #[trigger] after[v] == (if before[v] == UNREACHED && fed(
                snap.edges@,
                frontier,
                frontier.len() as int,
                v,
            ) {
                (h + 1) as u32
            } else {
                before[v]
            }),
    ensures
        levels_to(after, snap.edges@, seeds, h + 1),
        (forall|v: int|
            0 <= v < snap.n() ==> !(before[v] == UNREACHED && #[trigger] fed(
                snap.edges@,
                frontier,
                frontier.len() as int,
                v,
            ))) ==> within(snap.edges@, seeds, h + 1) == within(snap.edges@, seeds, h),
{
    let edges = snap.edges@;
    let len = frontier.len() as int;
    lemma_within_mono(edges, seeds, h, h + 1);
    lemma_within_range(edges, seeds, h, snap.n() as int);
    lemma_within_range(edges, seeds, h + 1, snap.n() as int);
    assert forall|v: int| 0 <= v < after.len() implies {
        &&& (#[trigger] after[v] != UNREACHED <==> within(edges, seeds, h + 1).contains(v))
        &&& after[v] != UNREACHED ==> after[v] <= h + 1 && at_level(
            edges,
            seeds,
            v,
            after[v] as nat,
        )
    } by {
        assert(before[v] != UNREACHED <==> within(edges, seeds, h).contains(v));
        if before[v] == UNREACHED {
            if fed(edges, frontier, len, v) {
                let a = choose|a: int| 0 <= a < len && #[trigger] arc(edges, frontier[a] as int, v);
                assert(frontier.contains(frontier[a]));
                assert(before[frontier[a] as int] == h);
                lemma_within_step(edges, seeds, frontier[a] as int, v, h);
            } else if within(edges, seeds, h + 1).contains(v) {
                lemma_fed(snap, seeds, h, before, frontier, v);
            }
        }
    }
    if forall|v: int|
        0 <= v < snap.n() ==> !(before[v] == UNREACHED && #[trigger] fed(edges, frontier, len, v)) {
        assert forall|v: int| within(edges, seeds, h + 1).contains(v) implies within(
            edges,
            seeds,
            h,
        ).contains(v) by {
            if !within(edges, seeds, h).contains(v) {
                assert(0 <= v < snap.n());
                assert(before[v] == UNREACHED);
                lemma_fed(snap, seeds, h, before, frontier, v);
            }
        }
        assert(within(edges, seeds, h + 1) =~= within(edges, seeds, h));
    }
}

/// A node that is new at the next level is fed by the frontier.
proof fn lemma_fed(
    snap: CsrSnapshot,
    seeds: Set<int>,
    h: nat,
    before: Seq<u32>,
    frontier: Seq<u32>,
    v: int,
)
    requires
        snap.wf(),
        before.len() == snap.n(),
        forall|v: int| seeds.contains(v) ==> 0 <= v < snap.n(),
        levels_to(before, snap.edges@, seeds, h),
        forall|v: u32|
            #![trigger frontier.contains(v)]
            frontier.contains(v) <==> v < snap.n() && before[v as int] == h,
        within(snap.edges@, seeds, h + 1).contains(v),
        !within(snap.edges@, seeds, h).contains(v),
    ensures
        fed(snap.edges@, frontier, frontier.len() as int, v),
{
    let edges = snap.edges@;
    lemma_within_range(edges, seeds, h, snap.n() as int);
    assert(within(edges, seeds, h + 1) == grow(edges, within(edges, seeds, h)));
    let u = choose|u: int| within(edges, seeds, h).contains(u) && #[trigger] arc(edges, u, v);
    assert(0 <= u < snap.n());
    assert(before[u] != UNREACHED);
    let lu = before[u] as nat;
    if lu < h {
        lemma_within_step(edges, seeds, u, v, lu);
        lemma_within_mono(edges, seeds, lu + 1, h);
    }
    assert(frontier.contains(u as u32));
    let a = choose|a: int| 0 <= a < frontier.len() && frontier[a] == u as u32;
    assert(arc(edges, frontier[a] as int, v));
}

/// `out` lists, in ascending order, the ids of the nodes of `s`.
pub open spec fn lists(ids: Seq<NodeId>, s: Set<int>, out: Seq<NodeId>) -> bool {
    &&& ascending(out)
    &&& forall|d: int| 0 <= d < ids.len() ==> (out.contains(#[trigger] ids[d]) <==> s.contains(d))
    &&& forall|i: int| 0 <= i < out.len() ==> ids.contains(#[trigger] out[i])
}

/// The dense index of a node of the graph.
pub open spec fn dense_of(ids: Seq<NodeId>, id: NodeId) -> int {
    ids.index_of(id)
}

/// Breadth-first search outward from `start`, up to `hops` levels.
///
/// Returns every node within `hops` outgoing steps, `start` included, in
/// ascending id order. An unknown `start` has reached nothing.
pub fn bfs(snap: &CsrSnapshot, start: NodeId, hops: u8) -> (out: Vec<NodeId>)
    requires
        snap.wf(),
    ensures
        !snap.dense_to_id@.contains(start) ==> out@.len() == 0,
        snap.dense_to_id@.contains(start) ==> lists(
            snap.dense_to_id@,
            within(snap.edges@, set![dense_of(snap.dense_to_id@, start)], hops as nat),
            out@,
        ),
{
    let s: usize = match snap.dense(start) {
        Some(d) => d,
        None => {
            return Vec::new();
        },
    };
    proof {
        crate::csr::lemma_index_unique(snap.dense_to_id@, s as int);
    }
    let ghost seeds = set![s as int];
    let ghost edges = snap.edges@;
    let mut levels: Vec<u32> = vec![UNREACHED; snap.dense_to_id.len()];
    levels.set(s, 0);
    let mut frontier: Vec<u32> = vec![s as u32];
    let mut next: Vec<u32> = Vec::new();
    let mut hop: u32 = 0;
    proof {
        assert(frontier@ =~= seq![s as u32]);
        assert forall|v: u32| #![trigger frontier@.contains(v)] frontier@.contains(v) <==> v
            < snap.n() && levels@[v as int] == 0 by {
            assert(frontier@[0] == s as u32);
        }
    }
    let mut done: bool = false;
    while !done && hop < hops as u32
        invariant
            snap.wf(),
            edges == snap.edges@,
            s < snap.n(),
            seeds == set![s as int],
            levels@.len() == snap.n(),
            hop <= hops,
            levels_to(levels@, edges, seeds, hop as nat),
            !done ==> forall|v: u32|
                #![trigger frontier@.contains(v)]
                frontier@.contains(v) <==> v < snap.n() && levels@[v as int] == hop,
            done ==> within(edges, seeds, hop as nat + 1) == within(edges, seeds, hop as nat),
        decreases hops - hop, bit(!done),
    {
        let ghost before = levels@;
        assert forall|i: int| 0 <= i < frontier@.len() implies (#[trigger] frontier@[i])
            < snap.n() by {
            assert(frontier@.contains(frontier@[i]));
        }
        expand_frontier(snap, &frontier, hop + 1, &mut levels, &mut next);
        proof {
            lemma_advance(*snap, seeds, hop as nat, before, frontier@, levels@);
        }
        if next.len() == 0 {
            proof {
                assert forall|v: int| 0 <= v < snap.n() implies !(before[v] == UNREACHED
                    && #[trigger] fed(edges, frontier@, frontier@.len() as int, v)) by {
                    assert(!next@.contains(v as u32));
                }
                assert(levels@ =~= before);
            }
            done = true;
        } else {
            proof {
                assert forall|v: u32| #![trigger next@.contains(v)] next@.contains(v) <==> v
                    < snap.n() && levels@[v as int] == hop + 1 by {
                    if v < snap.n() {
                        assert(before[v as int] == UNREACHED || before[v as int] <= hop);
                    }
                }
            }
            hop = hop + 1;
            std::mem::swap(&mut frontier, &mut next);
        }
    }
    proof {
        if done {
            lemma_within_closed(edges, seeds, hop as nat, hops as nat);
        }
    }
    reached_in_order(snap, &levels)
}

/// A search that stops with `t` on its last level has stopped on the level of `t`.
proof fn lemma_stopped(levels: Seq<u32>, edges: Seq<Edge>, seeds: Set<int>, t: int, h: nat)
    requires
        0 <= t < levels.len(),
        levels_to(levels, edges, seeds, h),
        at_level(edges, seeds, t, h),
    ensures
        reachable(edges, seeds, t),
        forall|l: nat| #[trigger]
            at_level(edges, seeds, t, l) ==> levels_to(levels, edges, seeds, l),
{
    assert forall|l: nat| #[trigger] at_level(edges, seeds, t, l) implies levels_to(
        levels,
        edges,
        seeds,
        l,
    ) by {
        lemma_level_unique(edges, seeds, t, l, h);
    }
}

/// Breadth-first hop distance from `src` to every reachable dense index.
///
/// Stops as soon as `stop` is reached, one whole level at a time: every node at
/// a distance up to that level is recorded, and nothing beyond it. A `stop` that is
/// the source itself is reached before any step is taken. Without a `stop`, or with
/// one that cannot be reached, every reachable node is recorded.
pub fn hop_distances(snap: &CsrSnapshot, src: u32, stop: Option<u32>) -> (levels: Vec<u32>)
    requires
        snap.wf(),
        src < snap.n(),
        stop matches Some(t) ==> t < snap.n(),
    ensures
        levels@.len() == snap.n(),
        forall|t: u32, l: nat|
            #![trigger at_level(snap.edges@, set![src as int], t as int, l)]
            stop == Some(t) && at_level(snap.edges@, set![src as int], t as int, l) ==> levels_to(
                levels@,
                snap.edges@,
                set![src as int],
                l,
            ),
        !(stop matches Some(t) && reachable(snap.edges@, set![src as int], t as int)) ==> exists|
            h: nat,
        |
            #[trigger] levels_to(levels@, snap.edges@, set![src as int], h) && h <= snap.n()
                && within(snap.edges@, set![src as int], h + 1) == within(
                snap.edges@,
                set![src as int],
                h,
            ),
{
    let ghost seeds = set![src as int];
    let ghost edges = snap.edges@;
    let n: usize = snap.dense_to_id.len();
    let mut levels: Vec<u32> = vec![UNREACHED; n];
    let ghost empty = levels@;
    levels.set(src as usize, 0);
    let mut frontier: Vec<u32> = vec![src];
    let mut next: Vec<u32> = Vec::new();
    let mut hop: u32 = 0;
    proof {
        let w = |l: u32| bit(recorded()(l));
        crate::sums::lemma_sum_zero(empty, w);
        lemma_sum_update(empty, src as int, 0u32, w);
        assert(frontier@ =~= seq![src]);
        assert forall|v: u32| #![trigger frontier@.contains(v)] frontier@.contains(v) <==> v
            < snap.n() && levels@[v as int] == 0 by {
            assert(frontier@[0] == src);
        }
        assert forall|v: int| 0 <= v < levels@.len() implies {
            &&& (#[trigger] levels@[v] != UNREACHED <==> within(edges, seeds, 0).contains(v))
            &&& levels@[v] != UNREACHED ==> levels@[v] <= 0 && at_level(
                edges,
                seeds,
                v,
                levels@[v] as nat,
            )
        } by {}
    }
    if let Some(t) = stop {
        if t == src {
            proof {
                assert(levels_to(levels@, edges, seeds, 0));
                assert(at_level(edges, seeds, src as int, 0));
                lemma_stopped(levels@, edges, seeds, src as int, 0);
                assert(within(edges, seeds, 0).contains(src as int));
            }
            return levels;
        }
    }
    loop
        invariant
            snap.wf(),
            n == snap.n(),
            edges == snap.edges@,
            src < snap.n(),
            seeds == set![src as int],
            stop matches Some(t) ==> t < snap.n(),
            stop matches Some(t) ==> levels@[t as int] == UNREACHED,
            levels@[src as int] == 0,
            levels@.len() == snap.n(),
            count(levels@, recorded()) > hop,
            levels_to(levels@, edges, seeds, hop as nat),
            forall|v: u32|
                #![trigger frontier@.contains(v)]
                frontier@.contains(v) <==> v < snap.n() && levels@[v as int] == hop,
        decreases n - hop,
    {
        let ghost before = levels@;
        proof {
            lemma_count_bound(levels@, recorded());
            assert forall|i: int| 0 <= i < frontier@.len() implies (#[trigger] frontier@[i])
                < snap.n() by {
                assert(frontier@.contains(frontier@[i]));
            }
        }
        expand_frontier(snap, &frontier, hop + 1, &mut levels, &mut next);
        proof {
            lemma_advance(*snap, seeds, hop as nat, before, frontier@, levels@);
        }
        if next.len() == 0 {
            proof {
                assert forall|v: int| 0 <= v < snap.n() implies !(before[v] == UNREACHED
                    && #[trigger] fed(edges, frontier@, frontier@.len() as int, v)) by {
                    assert(!next@.contains(v as u32));
                }
                assert(levels@ =~= before);
                assert(levels_to(levels@, edges, seeds, hop as nat));
                if let Some(t) = stop {
                    assert forall|k: nat| !(#[trigger] within(edges, seeds, k).contains(t as int)) by {
                        if k <= hop {
                            lemma_within_mono(edges, seeds, k, hop as nat);
                        } else {
                            lemma_within_closed(edges, seeds, hop as nat, k);
                        }
                    }
                }
            }
            return levels;
        }
        proof {
            lemma_count_bound(levels@, recorded());
            assert forall|v: u32| #![trigger next@.contains(v)] next@.contains(v) <==> v < snap.n()
                && levels@[v as int] == hop + 1 by {
                if v < snap.n() {
                    assert(before[v as int] == UNREACHED || before[v as int] <= hop);
                }
            }
        }
        std::mem::swap(&mut frontier, &mut next);
        hop = hop + 1;
        if let Some(t) = stop {
            if levels[t as usize] != UNREACHED {
                proof {
                    assert(levels_to(levels@, edges, seeds, hop as nat));
                    lemma_stopped(levels@, edges, seeds, t as int, hop as nat);
                }
                return levels;
            }
        }
    }
}

/// The seeds that are nodes of the graph, each once, in order of first mention.
pub open spec fn known_seeds(ids: Seq<NodeId>, seeds: Seq<NodeId>) -> Seq<int>
    decreases seeds.len(),
{
    if seeds.len() == 0 {
        Seq::empty()
    } else {
        let before = known_seeds(ids, seeds.drop_last());
        let id = seeds.last();
        if ids.contains(id) && !before.contains(dense_of(ids, id)) {
            before.push(dense_of(ids, id))
        } else {
            before
        }
    }
}

/// The seeds that a cap admits: the first ones.
pub open spec fn admitted(known: Seq<int>, max: Option<usize>) -> Seq<int> {
    if max matches Some(m) && m < known.len() {
        known.take(max->0 as int)
    } else {
        known
    }
}

/// Whether a cap admits `count` nodes.
pub open spec fn fits(max: Option<usize>, count: nat) -> bool {
    max matches Some(m) ==> count <= m
}

/// `kept` is what a capped search keeps: everything within `hops` steps where
/// that fits the cap; otherwise the last level that fits whole, and of the next
/// level the lowest-numbered nodes, up to the cap.
pub open spec fn capped_reach(
    edges: Seq<Edge>,
    seeds: Set<int>,
    hops: nat,
    max: Option<usize>,
    n: nat,
    kept: Set<int>,
) -> bool {
    if fits(max, size(within(edges, seeds, hops), n)) {
        kept == within(edges, seeds, hops)
    } else {
        exists|h: nat|
            h < hops && #[trigger] capped_at(edges, seeds, h, max, n, kept)
    }
}

/// The cap falls inside level `h + 1`.
pub open spec fn capped_at(
    edges: Seq<Edge>,
    seeds: Set<int>,
    h: nat,
    max: Option<usize>,
    n: nat,
    kept: Set<int>,
) -> bool {
    let whole = within(edges, seeds, h);
    let next = within(edges, seeds, h + 1);
    &&& fits(max, size(whole, n)) && !fits(max, size(next, n))
    &&& whole.subset_of(kept) && kept.subset_of(next)
    &&& size(kept, n) == max->0
    &&& forall|a: int, b: int|
        #![trigger kept.contains(a), next.contains(b)]
        kept.contains(a) && !whole.contains(a) && next.contains(b) && !kept.contains(b) ==> a < b
}

proof fn lemma_size_mono(edges: Seq<Edge>, seeds: Set<int>, j: nat, k: nat, n: nat)
    requires
        j <= k,
    ensures
        size(within(edges, seeds, j), n) <= size(within(edges, seeds, k), n),
{
    lemma_within_mono(edges, seeds, j, k);
    let a = member(within(edges, seeds, j));
    let b = member(within(edges, seeds, k));
    crate::sums::lemma_sum_le(crate::sums::upto(n), |v: int| bit(a(v)), |v: int| bit(b(v)));
}

/// Breadth-first search outward from several seeds at once.
///
/// The `max_nodes` cap applies both while seeding and while expanding, so the
/// result never exceeds it. The flag is true when the cap cut off seeds or
/// frontier nodes that were still reachable. Duplicate seeds count once.
pub fn bfs_multi_source(
    snap: &CsrSnapshot,
    seeds: &[NodeId],
    hops: u8,
    max_nodes: Option<usize>,
) -> (r: (Vec<NodeId>, bool))
    requires
        snap.wf(),
    ensures
        ({
            let ids = snap.dense_to_id@;
            let known = known_seeds(ids, seeds@);
            let from = admitted(known, max_nodes).to_set();
            let kept = Set::new(|d: int| 0 <= d < ids.len() && r.0@.contains(ids[d]));
            &&& lists(ids, kept, r.0@)
            &&& capped_reach(snap.edges@, from, hops as nat, max_nodes, ids.len(), kept)
            &&& fits(max_nodes, r.0@.len())
            &&& r.1 == (!fits(max_nodes, known.len()) || !fits(
                max_nodes,
                size(within(snap.edges@, from, hops as nat), ids.len()),
            ))
        }),
{
    let ghost ids = snap.dense_to_id@;
    let ghost edges = snap.edges@;
    let n: usize = snap.dense_to_id.len();
    let mut levels: Vec<u32> = vec![UNREACHED; n];
    let mut frontier: Vec<u32> = Vec::new();
    let mut truncated: bool = false;
    let mut i: usize = 0;
    let ghost w = |l: u32| bit(recorded()(l));
    proof {
        crate::sums::lemma_sum_zero(levels@, w);
        assert(seeds@.take(0) =~= Seq::empty());
        assert(known_seeds(ids, seeds@.take(0)) =~= Seq::empty());
    }
    while i < seeds.len() && !truncated
        invariant
            snap.wf(),
            ids == snap.dense_to_id@,
            n == snap.n(),
            w == (|l: u32| bit(recorded()(l))),
            i <= seeds@.len(),
            levels@.len() == n,
            frontier@.no_duplicates(),
            forall|a: int| 0 <= a < frontier@.len() ==> (#[trigger] frontier@[a]) < n,
            frontier@.map_values(|v: u32| v as int) == admitted(
                known_seeds(ids, seeds@.take(i as int)),
                max_nodes,
            ),
            !truncated ==> fits(max_nodes, known_seeds(ids, seeds@.take(i as int)).len()),
            truncated ==> !fits(max_nodes, known_seeds(ids, seeds@.take(i as int)).len()),
            forall|v: int|
                0 <= v < n ==> #[trigger] levels@[v] == (if frontier@.contains(v as u32) {
                    0
                } else {
                    UNREACHED
                }),
            count(levels@, recorded()) == frontier@.len(),
        decreases seeds@.len() - i, bit(!truncated),
    {
        let ghost done = seeds@.take(i as int);
        let ghost known = known_seeds(ids, done);
        let ghost frontier0 = frontier@;
        let ghost levels0 = levels@;
        proof {
            assert(seeds@.take(i + 1).drop_last() =~= done);
            assert(seeds@.take(i + 1).last() == seeds@[i as int]);
            assert(frontier0.map_values(|v: u32| v as int) =~= known);
            assert forall|v: u32| frontier0.contains(v) <==> known.contains(v as int) by {
                if frontier0.contains(v) {
                    let q = choose|q: int| 0 <= q < frontier0.len() && frontier0[q] == v;
                    assert(known[q] == v as int);
                }
                if known.contains(v as int) {
                    let q = choose|q: int| 0 <= q < known.len() && known[q] == v as int;
                    assert(frontier0[q] == v);
                }
            }
        }
        match snap.dense(seeds[i]) {
            None => {},
            Some(d) => {
                proof {
                    crate::csr::lemma_index_unique(ids, d as int);
                    assert(ids.contains(seeds@[i as int]));
                    assert(frontier0.contains(d as u32) <==> known.contains(d as int));
                }
                if levels[d] == UNREACHED {
                    let full: bool = match max_nodes {
                        Some(m) => frontier.len() >= m,
                        None => false,
                    };
                    if full {
                        truncated = true;
                        assert(admitted(known_seeds(ids, seeds@.take(i + 1)), max_nodes)
                            =~= known);
                    } else {
                        levels.set(d, 0);
                        frontier.push(d as u32);
                        proof {
                            lemma_sum_update(levels0, d as int, 0u32, w);
                            assert(frontier@.map_values(|v: u32| v as int) =~= known.push(
                                d as int,
                            ));
                            assert forall|v: u32| #![trigger frontier@.contains(v)]
                                frontier@.contains(v) <==> frontier0.contains(v) || v
                                == d as u32 by {
                                if frontier0.contains(v) {
                                    let q = choose|q: int|
                                        0 <= q < frontier0.len() && frontier0[q] == v;
                                    assert(frontier@[q] == v);
                                }
                                assert(frontier@[frontier0.len() as int] == d as u32);
                            }
                        }
                    }
                }
            },
        }
        i = i + 1;
    }
    let ghost known = known_seeds(ids, seeds@);
    let ghost from = admitted(known, max_nodes).to_set();
    let ghost cut_seeds = truncated;
    proof {
        if truncated {
            lemma_known_more(ids, seeds@, i as int);
            assert(admitted(known, max_nodes) =~= admitted(
                known_seeds(ids, seeds@.take(i as int)),
                max_nodes,
            ));
        } else {
            assert(seeds@.take(i as int) =~= seeds@);
        }
        let fm = frontier@.map_values(|v: u32| v as int);
        assert forall|v: u32| frontier@.contains(v) <==> from.contains(v as int) by {
            if frontier@.contains(v) {
                let q = choose|q: int| 0 <= q < frontier@.len() && frontier@[q] == v;
                assert(fm[q] == v as int);
            }
            if from.contains(v as int) {
                let q = choose|q: int| 0 <= q < fm.len() && fm[q] == v as int;
                assert(frontier@[q] == v);
            }
        }
        assert forall|v: int| from.contains(v) implies 0 <= v < n by {
            let q = choose|q: int| 0 <= q < fm.len() && fm[q] == v;
            assert(frontier@[q] < n);
        }
        assert(levels_to(levels@, edges, from, 0)) by {
            assert forall|v: int| 0 <= v < levels@.len() implies {
                &&& (#[trigger] levels@[v] != UNREACHED <==> within(edges, from, 0).contains(v))
                &&& levels@[v] != UNREACHED ==> levels@[v] <= 0 && at_level(
                    edges,
                    from,
                    v,
                    levels@[v] as nat,
                )
            } by {
                assert(frontier@.contains(v as u32) <==> from.contains(v));
            }
        }
        lemma_size_is_count(levels@, within(edges, from, 0));
        assert(fits(max_nodes, frontier@.len()));
        assert(cut_seeds == !fits(max_nodes, known.len()));
    }
    let mut visited: usize = frontier.len();
    let mut next: Vec<u32> = Vec::new();
    let mut hop: u32 = 0;
    let mut done: bool = false;
    let mut cut: bool = false;
    let ghost mut kept: Set<int> = within(edges, from, 0);
    while !done && hop < hops as u32
        invariant
            snap.wf(),
            ids == snap.dense_to_id@,
            edges == snap.edges@,
            n == snap.n(),
            forall|v: int| from.contains(v) ==> 0 <= v < n,
            truncated == (cut_seeds || cut),
            levels@.len() == n,
            hop <= hops,
            !cut ==> levels_to(levels@, edges, from, hop as nat),
            !cut ==> visited == size(within(edges, from, hop as nat), n as nat),
            !cut ==> fits(max_nodes, visited as nat),
            !cut ==> kept == within(edges, from, hop as nat),
            count(levels@, recorded()) == size(kept, n as nat),
            forall|v: int|
                0 <= v < n ==> (#[trigger] levels@[v] != UNREACHED <==> kept.contains(v)),
            !done ==> forall|v: u32|
                #![trigger frontier@.contains(v)]
                frontier@.contains(v) <==> v < n && levels@[v as int] == hop,
            done && !cut ==> within(edges, from, hop as nat + 1) == within(
                edges,
                from,
                hop as nat,
            ),
            cut ==> done && hop < hops && capped_at(
                edges,
                from,
                hop as nat,
                max_nodes,
                n as nat,
                kept,
            ),
        decreases hops - hop, bit(!done),
    {
        let ghost before = levels@;
        proof {
            assert forall|a: int| 0 <= a < frontier@.len() implies (#[trigger] frontier@[a])
                < snap.n() by {
                assert(frontier@.contains(frontier@[a]));
            }
        }
        expand_frontier(snap, &frontier, hop + 1, &mut levels, &mut next);
        let ghost after = levels@;
        let ghost found = next@;
        proof {
            lemma_advance(*snap, from, hop as nat, before, frontier@, levels@);
            lemma_size_is_count(before, within(edges, from, hop as nat));
            lemma_size_is_count(after, within(edges, from, hop as nat + 1));
            lemma_count_bound(after, recorded());
        }
        if next.len() == 0 {
            proof {
                assert forall|v: int| 0 <= v < snap.n() implies !(before[v] == UNREACHED
                    && #[trigger] fed(edges, frontier@, frontier@.len() as int, v)) by {
                    assert(!next@.contains(v as u32));
                }
                assert(levels@ =~= before);
            }
            done = true;
        } else {
            let over: bool = match max_nodes {
                Some(m) => visited + next.len() > m,
                None => false,
            };
            if over {
                let m: usize = match max_nodes {
                    Some(m) => m,
                    None => 0,
                };
                let allowed: usize = m - visited;
                proof {
                    assert forall|a: int| 0 <= a < found.len() implies (#[trigger] found[a]) < n
                        && after[found[a] as int] != UNREACHED by {
                        assert(found.contains(found[a]));
                    }
                }
                let mut j: usize = allowed;
                while j < next.len()
                    invariant
                        n < u32::MAX,
                        levels@.len() == n,
                        after.len() == n,
                        next@ == found,
                        allowed <= j <= next@.len(),
                        nodes_ascending(found),
                        forall|a: int| 0 <= a < found.len() ==> (#[trigger] found[a]) < n,
                        forall|a: int|
                            0 <= a < found.len() ==> after[#[trigger] found[a] as int] != UNREACHED,
                        forall|v: int|
                            0 <= v < n ==> #[trigger] levels@[v] == (if found.subrange(
                                allowed as int,
                                j as int,
                            ).contains(v as u32) {
                                UNREACHED
                            } else {
                                after[v]
                            }),
                        count(levels@, recorded()) + (j - allowed) == count(after, recorded()),
                    decreases next@.len() - j,
                {
                    let ghost levels0 = levels@;
                    let v: usize = next[j] as usize;
                    let ghost w = |l: u32| bit(recorded()(l));
                    let ghost part = found.subrange(allowed as int, j as int);
                    let ghost part1 = found.subrange(allowed as int, j + 1);
                    levels.set(v, UNREACHED);
                    proof {
                        assert(part1 =~= part.push(v as u32));
                        assert(!part.contains(v as u32)) by {
                            if part.contains(v as u32) {
                                let q = choose|q: int| 0 <= q < part.len() && part[q] == v as u32;
                                assert(found[allowed + q] < found[j as int]);
                            }
                        }
                        lemma_sum_update(levels0, v as int, UNREACHED, w);
                        assert forall|x: u32| #![trigger part1.contains(x)] part1.contains(x)
                            <==> part.contains(x) || x == v as u32 by {
                            if part.contains(x) {
                                let q = choose|q: int| 0 <= q < part.len() && part[q] == x;
                                assert(part1[q] == x);
                            }
                            assert(part1[part.len() as int] == v as u32);
                        }
                    }
                    j = j + 1;
                }
                proof {
                    let dropped = found.subrange(allowed as int, found.len() as int);
                    let whole = within(edges, from, hop as nat);
                    let wider = within(edges, from, hop as nat + 1);
                    lemma_within_mono(edges, from, hop as nat, hop as nat + 1);
                    lemma_within_range(edges, from, hop as nat + 1, n as int);
                    kept =
                    Set::new(
                        |v: int| 0 <= v < n && wider.contains(v) && !dropped.contains(v as u32),
                    );
                    assert forall|v: int| 0 <= v < n implies (#[trigger] levels@[v] != UNREACHED
                        <==> kept.contains(v)) by {
                        assert(after[v] != UNREACHED <==> wider.contains(v));
                    }
                    lemma_size_is_count(levels@, kept);
                    assert(whole.subset_of(kept)) by {
                        assert forall|v: int| whole.contains(v) implies kept.contains(v) by {
                            assert(wider.contains(v));
                            assert(before[v] != UNREACHED);
                            if dropped.contains(v as u32) {
                                let q = choose|q: int|
                                    0 <= q < dropped.len() && dropped[q] == v as u32;
                                assert(found[allowed + q] == v as u32);
                                assert(found.contains(v as u32));
                            }
                        }
                    }
                    assert forall|a: int, b: int|
                        #![trigger kept.contains(a), wider.contains(b)]
                        kept.contains(a) && !whole.contains(a) && wider.contains(b)
                            && !kept.contains(b) implies a < b by {
                        assert(0 <= b < n);
                        assert(before[a] == UNREACHED);
                        assert(after[a] != UNREACHED);
                        assert(found.contains(a as u32));
                        let p = choose|p: int| 0 <= p < found.len() && found[p] == a as u32;
                        let q = choose|q: int| 0 <= q < dropped.len() && dropped[q] == b as u32;
                        if p >= allowed {
                            assert(dropped[p - allowed] == a as u32);
                        }
                        assert(found[allowed + q] == b as u32);
                        assert(found[p] < found[allowed + q]);
                    }
                    assert(capped_at(edges, from, hop as nat, max_nodes, n as nat, kept));
                }
                truncated = true;
                cut = true;
                done = true;
            } else {
                proof {
                    assert forall|v: u32| #![trigger next@.contains(v)] next@.contains(v) <==> v
                        < snap.n() && levels@[v as int] == hop + 1 by {
                        if v < snap.n() {
                            assert(before[v as int] == UNREACHED || before[v as int] <= hop);
                        }
                    }
                    kept = within(edges, from, hop as nat + 1);
                }
                visited = visited + next.len();
                hop = hop + 1;
                std::mem::swap(&mut frontier, &mut next);
            }
        }
    }
    let out: Vec<NodeId> = reached_in_order(snap, &levels);
    proof {
        let shown = Set::new(|d: int| 0 <= d < ids.len() && out@.contains(ids[d]));
        if cut {
            lemma_size_mono(edges, from, hop as nat + 1, hops as nat, n as nat);
        } else {
            if done {
                lemma_within_closed(edges, from, hop as nat, hops as nat);
            }
            lemma_within_range(edges, from, hop as nat, n as int);
        }
        assert forall|v: int| kept.contains(v) implies 0 <= v < n by {
            lemma_within_range(edges, from, hop as nat, n as int);
            lemma_within_range(edges, from, hop as nat + 1, n as int);
        }
        assert(shown =~= kept);
    }
    (out, truncated)
}

/// Known seeds only accumulate.
proof fn lemma_known_more(ids: Seq<NodeId>, seeds: Seq<NodeId>, i: int)
    requires
        0 <= i <= seeds.len(),
    ensures
        known_seeds(ids, seeds.take(i)).is_prefix_of(known_seeds(ids, seeds)),
    decreases seeds.len() - i,
{
    if i == seeds.len() {
        assert(seeds.take(i) =~= seeds);
    } else {
        lemma_known_more(ids, seeds, i + 1);
        assert(seeds.take(i + 1).drop_last() =~= seeds.take(i));
    }
}

/// A traversed edge: source, edge and the node it leads to.
pub type Triple = (NodeId, EdgeId, NodeId);

/// The traversed edges of one row.
pub open spec fn row_triples(
    ids: Seq<NodeId>,
    row: Seq<Edge>,
    want: Option<TypeId>,
    incoming: bool,
) -> Seq<Triple>
    decreases row.len(),
{
    if row.len() == 0 {
        Seq::empty()
    } else {
        let before = row_triples(ids, row.drop_last(), want, incoming);
        let e = row.last();
        if type_admits(want, e.ty) {
            before.push(
                if incoming {
                    (ids[e.dst], e.id, ids[e.src])
                } else {
                    (ids[e.src], e.id, ids[e.dst])
                },
            )
        } else {
            before
        }
    }
}

/// The traversed edges of each source in turn; an unknown source has none.
pub open spec fn expansion(
    ids: Seq<NodeId>,
    edges: Seq<Edge>,
    sources: Seq<NodeId>,
    want: Option<TypeId>,
    incoming: bool,
) -> Seq<Triple>
    decreases sources.len(),
{
    if sources.len() == 0 {
        Seq::empty()
    } else {
        let before = expansion(ids, edges, sources.drop_last(), want, incoming);
        let id = sources.last();
        if ids.contains(id) {
            let d = dense_of(ids, id);
            let row = edges.filter(
                if incoming {
                    entering(d)
                } else {
                    leaving(d)
                },
            );
            before + row_triples(ids, row, want, incoming)
        } else {
            before
        }
    }
}

/// Expands a set of sources in bulk: per source in input order and, within one
/// source, in ascending edge id order.
pub fn expand_rows(
    snap: &CsrSnapshot,
    sources: &[NodeId],
    want: Option<TypeId>,
    incoming: bool,
) -> (out: Vec<Triple>)
    requires
        snap.wf(),
    ensures
        out@ == expansion(snap.dense_to_id@, snap.edges@, sources@, want, incoming),
{
    let ghost ids = snap.dense_to_id@;
    let ghost edges = snap.edges@;
    let mut out: Vec<Triple> = Vec::new();
    let mut i: usize = 0;
    assert(sources@.take(0) =~= Seq::empty());
    while i < sources.len()
        invariant
            snap.wf(),
            ids == snap.dense_to_id@,
            edges == snap.edges@,
            i <= sources@.len(),
            out@ == expansion(ids, edges, sources@.take(i as int), want, incoming),
        decreases sources@.len() - i,
    {
        let ghost before = out@;
        proof {
            assert(sources@.take(i + 1).drop_last() =~= sources@.take(i as int));
        }
        if let Some(d) = snap.dense(sources[i]) {
            proof {
                crate::csr::lemma_index_unique(ids, d as int);
                assert(ids.contains(sources@[i as int]));
            }
            let ghost row = if incoming {
                snap.in_row(d as int)
            } else {
                snap.out_row(d as int)
            };
            let lo: usize = if incoming {
                snap.in_row_ptr[d]
            } else {
                snap.row_ptr[d]
            };
            let hi: usize = if incoming {
                snap.in_row_ptr[d + 1]
            } else {
                snap.row_ptr[d + 1]
            };
            let mut k: usize = lo;
            assert(row.take(0) =~= Seq::empty());
            while k < hi
                invariant
                    snap.wf(),
                    ids == snap.dense_to_id@,
                    i < sources@.len(),
                    d < snap.n(),
                    ids[d as int] == sources@[i as int],
                    row == (if incoming {
                        snap.in_row(d as int)
                    } else {
                        snap.out_row(d as int)
                    }),
                    lo == (if incoming {
                        snap.in_row_ptr@[d as int]
                    } else {
                        snap.row_ptr@[d as int]
                    }),
                    hi == (if incoming {
                        snap.in_row_ptr@[d + 1]
                    } else {
                        snap.row_ptr@[d + 1]
                    }),
                    lo <= k <= hi <= snap.edges@.len(),
                    out@ == before + row_triples(ids, row.take(k - lo), want, incoming),
                decreases hi - k,
            {
                proof {
                    assert(row.take(k - lo + 1).drop_last() =~= row.take(k - lo));
                    assert(row.take(k - lo + 1).last() == row[k - lo]);
                }
                let ty: TypeId = if incoming {
                    snap.in_edge_type[k]
                } else {
                    snap.edge_type[k]
                };
                if type_ok(want, ty) {
                    let other: usize = if incoming {
                        snap.in_col_idx[k] as usize
                    } else {
                        snap.col_idx[k] as usize
                    };
                    let edge: EdgeId = if incoming {
                        snap.in_edge_id[k]
                    } else {
                        snap.edge_id[k]
                    };
                    out.push((sources[i], edge, snap.dense_to_id[other]));
                    assert(out@ =~= before + row_triples(
                        ids,
                        row.take(k - lo + 1),
                        want,
                        incoming,
                    ));
                }
                k = k + 1;
            }
            assert(row.take(hi - lo) =~= row);
        }
        i = i + 1;
    }
    assert(sources@.take(i as int) =~= sources@);
    out
}

} // verus!
