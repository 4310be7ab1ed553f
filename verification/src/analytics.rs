//! Neighborhoods, degrees, label propagation and distance counts.

use std::collections::HashMap;

use vstd::prelude::*;

use crate::csr::{entering, leaving, CsrSnapshot, Edge};
use crate::schema::DegreeDirection;
use crate::sums::{bit, count, lemma_count_bound, lemma_sum_ext, lemma_sum_take, upto};
use crate::traversal::{
    arc, at_level, hop_distances, in_slots, lemma_level_unique, lemma_within_closed,
    lemma_within_mono, levels_to, within, UNREACHED,
};

verus! {

/// Whether an edge joins `u` with `v`, in a direction that counts.
pub open spec fn beside(edges: Seq<Edge>, out: bool, ins: bool, u: int, v: int) -> bool {
    (out && arc(edges, u, v)) || (ins && arc(edges, v, u))
}

/// The neighbors of `u`; itself among them only where `itself` admits it.
pub open spec fn near(
    edges: Seq<Edge>,
    out: bool,
    ins: bool,
    itself: bool,
    u: int,
) -> spec_fn(int) -> bool {
    |v: int| beside(edges, out, ins, u, v) && (itself || v != u)
}

/// How many neighbors `u` has.
pub open spec fn near_count(
    edges: Seq<Edge>,
    n: nat,
    out: bool,
    ins: bool,
    itself: bool,
    u: int,
) -> nat {
    count(upto(n), near(edges, out, ins, itself, u))
}

/// Marks of the nodes that a list holds. A mark is the number of the list, so
/// that a new list starts without marks.
pub struct Stamps {
    pub marks: Vec<u64>,
    pub token: u64,
}

impl Stamps {
    pub open spec fn wf(&self, n: nat) -> bool {
        &&& self.marks@.len() == n
        &&& forall|v: int| 0 <= v < n ==> (#[trigger] self.marks@[v]) <= self.token
    }

    /// Whether the current list holds `v`.
    pub open spec fn has(&self, v: int) -> bool {
        self.marks@[v] == self.token
    }

    pub fn new(n: usize) -> (s: Stamps)
        ensures
            s.wf(n as nat),
            s.token == 0,
    {
        let mut marks: Vec<u64> = Vec::new();
        let mut v: usize = 0;
        while v < n
            invariant
                v <= n,
                marks@.len() == v,
                forall|u: int| 0 <= u < v ==> (#[trigger] marks@[u]) == 0,
            decreases n - v,
        {
            marks.push(0);
            v = v + 1;
        }
        Stamps { marks, token: 0 }
    }
}

/// A list without repetition has as many items as there are nodes in it.
pub proof fn lemma_list_size(list: Seq<u32>, n: nat, p: spec_fn(int) -> bool)
    requires
        list.no_duplicates(),
        n <= u32::MAX,
        forall|v: u32| #[trigger] list.contains(v) <==> v < n && p(v as int),
    ensures
        list.len() == count(upto(n), p),
    decreases n,
{
    let w = |v: int| bit(p(v));
    if n == 0 {
        if list.len() > 0 {
            assert(list.contains(list[0]));
        }
    } else {
        let m = (n - 1) as nat;
        let last = m as u32;
        assert(upto(n).drop_last() =~= upto(m));
        let q = |v: int| p(v);
        if p(m as int) {
            assert(list.contains(last));
            let i = list.index_of(last);
            let rest = list.remove(i);
            assert forall|v: u32| #[trigger] rest.contains(v) <==> v < m && p(v as int) by {
                if rest.contains(v) {
                    let j = rest.index_of(v);
                    let o = if j < i {
                        j
                    } else {
                        j + 1
                    };
                    assert(list[o] == v);
                    assert(list.contains(v));
                }
                if v < m && p(v as int) {
                    assert(list.contains(v));
                    let j = list.index_of(v);
                    if j < i {
                        assert(rest[j] == v);
                    } else {
                        assert(rest[j - 1] == v);
                    }
                }
            }
            assert(rest.no_duplicates());
            lemma_list_size(rest, m, p);
        } else {
            assert forall|v: u32| #[trigger] list.contains(v) <==> v < m && p(v as int) by {}
            lemma_list_size(list, m, p);
        }
    }
}

/// Adds the nodes in the slots `lo..hi` to a list, each once, but for `skip`.
fn note(
    cols: &Vec<u32>,
    lo: usize,
    hi: usize,
    skip: Option<usize>,
    stamps: &mut Stamps,
    list: &mut Vec<u32>,
)
    requires
        lo <= hi <= cols@.len(),
        forall|k: int| lo <= k < hi ==> (#[trigger] cols@[k]) < old(stamps).marks@.len(),
        old(stamps).wf(old(stamps).marks@.len()),
        old(list)@.no_duplicates(),
        forall|v: u32| #[trigger]
            old(list)@.contains(v) <==> v < old(stamps).marks@.len() && old(stamps).has(v as int),
    ensures
        final(stamps).wf(old(stamps).marks@.len()),
        final(stamps).token == old(stamps).token,
        final(list)@.no_duplicates(),
        forall|v: u32| #[trigger]
            final(list)@.contains(v) <==> v < old(stamps).marks@.len() && final(stamps).has(
                v as int,
            ),
        forall|v: u32| #[trigger]
            final(list)@.contains(v) <==> old(list)@.contains(v) || (in_slots(
                cols@,
                lo as int,
                hi as int,
                v as int,
            ) && skip != Some(v as usize)),
{
    let n: usize = stamps.marks.len();
    let ghost first = list@;
    let mut k: usize = lo;
    while k < hi
        invariant
            lo <= k <= hi <= cols@.len(),
            forall|j: int| lo <= j < hi ==> (#[trigger] cols@[j]) < n,
            stamps.marks@.len() == n,
            stamps.wf(n as nat),
            stamps.token == old(stamps).token,
            list@.no_duplicates(),
            forall|v: u32| #[trigger] list@.contains(v) <==> v < n && stamps.has(v as int),
            forall|v: u32| #[trigger]
                list@.contains(v) <==> first.contains(v) || (in_slots(
                    cols@,
                    lo as int,
                    k as int,
                    v as int,
                ) && skip != Some(v as usize)),
        decreases hi - k,
    {
        let v: u32 = cols[k];
        let ghost before = list@;
        let ghost had = *stamps;
        let skipped: bool = match skip {
            Some(s) => s == v as usize,
            None => false,
        };
        let fresh: bool = !skipped && stamps.marks[v as usize] != stamps.token;
        if fresh {
            stamps.marks.set(v as usize, stamps.token);
            list.push(v);
        }
        proof {
            if fresh {
                assert(!before.contains(v));
                assert forall|i: int, j: int|
                    0 <= i < list@.len() && 0 <= j < list@.len() && i != j implies list@[i]
                    != list@[j] by {
                    if i == before.len() {
                        assert(before[j] == list@[j] && before.contains(before[j]));
                    } else if j == before.len() {
                        assert(before[i] == list@[i] && before.contains(before[i]));
                    } else {
                        assert(before[i] == list@[i] && before[j] == list@[j]);
                    }
                }
            }
            assert forall|x: u32| #[trigger] list@.contains(x) <==> before.contains(x) || (fresh
                && x == v) by {
                if before.contains(x) {
                    let j = before.index_of(x);
                    assert(list@[j] == x);
                }
                if fresh {
                    assert(list@[before.len() as int] == v);
                }
            }
            assert forall|x: u32|
                in_slots(cols@, lo as int, k + 1, x as int) <==> #[trigger] in_slots(
                    cols@,
                    lo as int,
                    k as int,
                    x as int,
                ) || x == v by {
                if in_slots(cols@, lo as int, k as int, x as int) {
                    let j = choose|j: int| lo <= j < k && #[trigger] cols@[j] == x;
                    assert(lo <= j < k + 1 && cols@[j] == x);
                }
                assert(cols@[k as int] == v);
            }
            assert forall|x: u32| #[trigger]
                list@.contains(x) <==> first.contains(x) || (in_slots(
                    cols@,
                    lo as int,
                    k + 1,
                    x as int,
                ) && skip != Some(x as usize)) by {
                assert(before.contains(x) <==> first.contains(x) || (in_slots(
                    cols@,
                    lo as int,
                    k as int,
                    x as int,
                ) && skip != Some(x as usize)));
                if x == v && !fresh && !skipped {
                    assert(before.contains(v));
                }
            }
            assert forall|x: u32| #[trigger] list@.contains(x) <==> x < n && stamps.has(
                x as int,
            ) by {
                assert(before.contains(x) <==> x < n && had.has(x as int));
            }
        }
        k = k + 1;
    }
}

/// The distinct neighbors of `u`, which are then marked.
pub fn gather(
    snap: &CsrSnapshot,
    u: usize,
    out: bool,
    ins: bool,
    itself: bool,
    stamps: &mut Stamps,
) -> (list: Vec<u32>)
    requires
        snap.wf(),
        u < snap.n(),
        old(stamps).wf(snap.n()),
        old(stamps).token < u64::MAX,
    ensures
        final(stamps).wf(snap.n()),
        final(stamps).token == old(stamps).token + 1,
        list@.no_duplicates(),
        forall|v: u32| #[trigger]
            list@.contains(v) <==> v < snap.n() && near(snap.edges@, out, ins, itself, u as int)(
                v as int,
            ),
        forall|v: int|
            0 <= v < snap.n() ==> #[trigger] final(stamps).has(v) == near(
                snap.edges@,
                out,
                ins,
                itself,
                u as int,
            )(v),
        list@.len() == near_count(snap.edges@, snap.n(), out, ins, itself, u as int),
{
    let n: usize = snap.dense_to_id.len();
    stamps.token = stamps.token + 1;
    let mut list: Vec<u32> = Vec::new();
    let skip: Option<usize> = if itself {
        None
    } else {
        Some(u)
    };
    proof {
        assert forall|v: u32| #[trigger] list@.contains(v) <==> v < n && stamps.has(v as int) by {
            if v < n {
                assert(old(stamps).marks@[v as int] <= old(stamps).token);
            }
        }
    }
    if out {
        note(&snap.col_idx, snap.row_ptr[u], snap.row_ptr[u + 1], skip, stamps, &mut list);
    }
    if ins {
        note(
            &snap.in_col_idx,
            snap.in_row_ptr[u],
            snap.in_row_ptr[u + 1],
            skip,
            stamps,
            &mut list,
        );
    }
    proof {
        let p = near(snap.edges@, out, ins, itself, u as int);
        assert forall|v: u32| #[trigger] list@.contains(v) <==> v < n && p(v as int) by {
            lemma_row_arcs(*snap, u as int, v as int);
        }
        lemma_list_size(list@, n as nat, p);
        assert forall|v: int| 0 <= v < n implies #[trigger] stamps.has(v) == p(v) by {
            assert(list@.contains(v as u32) <==> stamps.has(v as u32 as int));
            assert(list@.contains(v as u32) <==> p(v as u32 as int));
        }
    }
    list
}

/// The slots of a row are the arcs of its node.
proof fn lemma_row_arcs(snap: CsrSnapshot, u: int, v: int)
    requires
        snap.wf(),
        0 <= u < snap.n(),
    ensures
        in_slots(snap.col_idx@, snap.row_ptr@[u] as int, snap.row_ptr@[u + 1] as int, v) <==> arc(
            snap.edges@,
            u,
            v,
        ),
        in_slots(
            snap.in_col_idx@,
            snap.in_row_ptr@[u] as int,
            snap.in_row_ptr@[u + 1] as int,
            v,
        ) <==> arc(snap.edges@, v, u),
        arc(snap.edges@, u, v) || arc(snap.edges@, v, u) ==> 0 <= v < snap.n(),
{
    let (lo, hi) = (snap.row_ptr@[u] as int, snap.row_ptr@[u + 1] as int);
    let (ilo, ihi) = (snap.in_row_ptr@[u] as int, snap.in_row_ptr@[u + 1] as int);
    if in_slots(snap.col_idx@, lo, hi, v) {
        let k = choose|k: int| lo <= k < hi && #[trigger] snap.col_idx@[k] == v;
        snap.lemma_slot_is_arc(u, k);
    }
    if arc(snap.edges@, u, v) {
        let k = snap.lemma_arc_has_slot(u, v);
        assert(snap.col_idx@[k] == v);
    }
    if in_slots(snap.in_col_idx@, ilo, ihi, v) {
        let k = choose|k: int| ilo <= k < ihi && #[trigger] snap.in_col_idx@[k] == v;
        snap.lemma_in_slot_is_arc(u, k);
    }
    if arc(snap.edges@, v, u) {
        let k = snap.lemma_arc_has_in_slot(v, u);
        assert(snap.in_col_idx@[k] == v);
    }
}

/// The columns of a node's two rows, one after the other. A node that an edge
/// joins in both directions is there twice, and so is one that two edges join.
pub fn undirected_neighbors(snap: &CsrSnapshot, u: usize) -> (out: Vec<u32>)
    requires
        snap.wf(),
        u < snap.n(),
    ensures
        out@ == snap.col_idx@.subrange(
            snap.row_ptr@[u as int] as int,
            snap.row_ptr@[u + 1] as int,
        ) + snap.in_col_idx@.subrange(
            snap.in_row_ptr@[u as int] as int,
            snap.in_row_ptr@[u + 1] as int,
        ),
{
    let mut out: Vec<u32> = Vec::new();
    let (lo, hi): (usize, usize) = (snap.row_ptr[u], snap.row_ptr[u + 1]);
    let (ilo, ihi): (usize, usize) = (snap.in_row_ptr[u], snap.in_row_ptr[u + 1]);
    let mut k: usize = lo;
    while k < hi
        invariant
            lo <= k <= hi <= snap.col_idx@.len(),
            out@ == snap.col_idx@.subrange(lo as int, k as int),
        decreases hi - k,
    {
        out.push(snap.col_idx[k]);
        assert(out@ =~= snap.col_idx@.subrange(lo as int, k + 1));
        k = k + 1;
    }
    let ghost first = out@;
    let mut j: usize = ilo;
    assert(out@ =~= first + snap.in_col_idx@.subrange(ilo as int, ilo as int));
    while j < ihi
        invariant
            ilo <= j <= ihi <= snap.in_col_idx@.len(),
            out@ == first + snap.in_col_idx@.subrange(ilo as int, j as int),
        decreases ihi - j,
    {
        out.push(snap.in_col_idx[j]);
        assert(out@ =~= first + snap.in_col_idx@.subrange(ilo as int, j + 1));
        j = j + 1;
    }
    out
}

/// How many edges leave each node, parallel edges apart.
pub fn out_degrees(snap: &CsrSnapshot) -> (out: Vec<u32>)
    requires
        snap.wf(),
        snap.edges@.len() <= u32::MAX,
    ensures
        out@.len() == snap.n(),
        forall|d: int|
            0 <= d < snap.n() ==> (#[trigger] out@[d]) == snap.edges@.filter(leaving(d)).len(),
{
    let mut out: Vec<u32> = Vec::new();
    let mut d: usize = 0;
    while d < snap.dense_to_id.len()
        invariant
            snap.wf(),
            snap.edges@.len() <= u32::MAX,
            d <= snap.n(),
            out@.len() == d,
            forall|e: int|
                0 <= e < d ==> (#[trigger] out@[e]) == snap.edges@.filter(leaving(e)).len(),
        decreases snap.n() - d,
    {
        assert(snap.out_row(d as int) == snap.edges@.filter(leaving(d as int)));
        out.push((snap.row_ptr[d + 1] - snap.row_ptr[d]) as u32);
        d = d + 1;
    }
    out
}

/// Applies `body` to every index below `n`, in as many chunks of equal size as
/// there are threads. How they are split does not change the result.
pub fn map_dense_range<T, F: Fn(usize) -> T>(n: usize, threads: usize, body: F) -> (out: Vec<T>)
    requires
        forall|i: usize| i < n ==> call_requires(body, (i,)),
    ensures
        out@.len() == n,
        forall|i: usize| i < n ==> call_ensures(body, (i,), #[trigger] out@[i as int]),
{
    let mut out: Vec<T> = Vec::new();
    assert(threads > 1 ==> n / threads <= n / 2) by (nonlinear_arith)
        requires
            n >= 0,
    ;
    let chunk: usize = if threads <= 1 || n == 0 {
        n
    } else if n % threads == 0 {
        n / threads
    } else {
        n / threads + 1
    };
    let mut lo: usize = 0;
    assert(n > 0 && threads > 1 ==> chunk > 0) by {
        if n > 0 && threads > 1 && n % threads == 0 {
            assert(n / threads > 0) by (nonlinear_arith)
                requires
                    n > 0,
                    threads > 1,
                    n % threads == 0,
            ;
        }
    }
    while lo < n
        invariant
            forall|i: usize| i < n ==> call_requires(body, (i,)),
            lo <= n,
            n > 0 ==> chunk > 0,
            out@.len() == lo,
            forall|i: usize| i < lo ==> call_ensures(body, (i,), #[trigger] out@[i as int]),
        decreases n - lo,
    {
        let hi: usize = if n - lo < chunk {
            n
        } else {
            lo + chunk
        };
        let mut i: usize = lo;
        while i < hi
            invariant
                forall|j: usize| j < n ==> call_requires(body, (j,)),
                lo <= i <= hi <= n,
                out@.len() == i,
                forall|j: usize| j < i ==> call_ensures(body, (j,), #[trigger] out@[j as int]),
            decreases hi - i,
        {
            let value: T = body(i);
            out.push(value);
            i = i + 1;
        }
        lo = hi;
    }
    out
}

/// The degree of a node: its distinct neighbors in a direction. `Both` counts
/// one that is joined in both directions twice.
pub open spec fn degree(edges: Seq<Edge>, n: nat, direction: DegreeDirection, u: int) -> nat {
    match direction {
        DegreeDirection::Out => near_count(edges, n, true, false, true, u),
        DegreeDirection::In => near_count(edges, n, false, true, true, u),
        DegreeDirection::Both => near_count(edges, n, true, false, true, u) + near_count(
            edges,
            n,
            false,
            true,
            true,
            u,
        ),
    }
}

/// The degree of every node.
pub fn degree_centrality(snap: &CsrSnapshot, direction: DegreeDirection) -> (out: Vec<u64>)
    requires
        snap.wf(),
    ensures
        out@.len() == snap.n(),
        forall|d: int|
            0 <= d < snap.n() ==> (#[trigger] out@[d]) == degree(
                snap.edges@,
                snap.n(),
                direction,
                d,
            ),
{
    let n: usize = snap.dense_to_id.len();
    let mut stamps: Stamps = Stamps::new(n);
    let mut out: Vec<u64> = Vec::new();
    let mut d: usize = 0;
    while d < n
        invariant
            snap.wf(),
            n == snap.n(),
            stamps.wf(n as nat),
            stamps.token <= 2 * d,
            d <= n,
            out@.len() == d,
            forall|e: int|
                0 <= e < d ==> (#[trigger] out@[e]) == degree(
                    snap.edges@,
                    n as nat,
                    direction,
                    e,
                ),
        decreases n - d,
    {
        let mut total: u64 = 0;
        let (with_out, with_in): (bool, bool) = match direction {
            DegreeDirection::Out => (true, false),
            DegreeDirection::In => (false, true),
            DegreeDirection::Both => (true, true),
        };
        if with_out {
            let list: Vec<u32> = gather(snap, d, true, false, true, &mut stamps);
            proof {
                lemma_count_bound(upto(n as nat), near(snap.edges@, true, false, true, d as int));
            }
            total = list.len() as u64;
        }
        if with_in {
            let list: Vec<u32> = gather(snap, d, false, true, true, &mut stamps);
            proof {
                lemma_count_bound(upto(n as nat), near(snap.edges@, false, true, true, d as int));
            }
            total = total + list.len() as u64;
        }
        out.push(total);
        d = d + 1;
    }
    out
}

/// The edges to nodes with a label.
pub open spec fn to_label(labels: Seq<u64>, l: u64) -> spec_fn(Edge) -> bool {
    |e: Edge| labels[e.dst] == l
}

/// The edges from nodes with a label.
pub open spec fn from_label(labels: Seq<u64>, l: u64) -> spec_fn(Edge) -> bool {
    |e: Edge| labels[e.src] == l
}

/// How many edges at `u` lead to a node with the label `l`. Every edge counts,
/// in either direction.
pub open spec fn votes(edges: Seq<Edge>, labels: Seq<u64>, u: int, l: u64) -> nat {
    count(edges.filter(leaving(u)), to_label(labels, l)) + count(
        edges.filter(entering(u)),
        from_label(labels, l),
    )
}

/// Whether `l` has the most votes, and is the smallest label that has.
pub open spec fn wins(edges: Seq<Edge>, labels: Seq<u64>, u: int, l: u64) -> bool {
    &&& votes(edges, labels, u, l) > 0
    &&& forall|m: u64| #[trigger]
        votes(edges, labels, u, m) < votes(edges, labels, u, l) || (votes(edges, labels, u, m)
            == votes(edges, labels, u, l) && l <= m)
}

/// The label that a node takes: the winner among its neighbors, or its own
/// where it has none.
pub open spec fn next_label(edges: Seq<Edge>, labels: Seq<u64>, u: int) -> u64 {
    if edges.filter(leaving(u)).len() + edges.filter(entering(u)).len() == 0 {
        labels[u]
    } else {
        choose|l: u64| wins(edges, labels, u, l)
    }
}

/// One round: all nodes take their labels at once.
pub open spec fn round(edges: Seq<Edge>, labels: Seq<u64>) -> Seq<u64> {
    Seq::new(labels.len(), |u: int| next_label(edges, labels, u))
}

/// The labels after `k` rounds.
pub open spec fn rounds(edges: Seq<Edge>, labels: Seq<u64>, k: nat) -> Seq<u64>
    decreases k,
{
    if k == 0 {
        labels
    } else {
        round(edges, rounds(edges, labels, (k - 1) as nat))
    }
}

proof fn lemma_rounds_fixed(edges: Seq<Edge>, labels: Seq<u64>, j: nat, k: nat)
    requires
        j <= k,
        round(edges, rounds(edges, labels, j)) == rounds(edges, labels, j),
    ensures
        rounds(edges, labels, k) == rounds(edges, labels, j),
    decreases k,
{
    if j < k {
        lemma_rounds_fixed(edges, labels, j, (k - 1) as nat);
    }
}

/// Votes that are counted in a map.
spec fn tallied(
    tally: Map<u64, u64>,
    outs: Seq<Edge>,
    ins: Seq<Edge>,
    labels: Seq<u64>,
) -> bool {
    forall|l: u64|
        {
            &&& #[trigger] tally.dom().contains(l) <==> count(outs, to_label(labels, l)) + count(
                ins,
                from_label(labels, l),
            ) > 0
            &&& tally.dom().contains(l) ==> tally[l] == count(outs, to_label(labels, l)) + count(
                ins,
                from_label(labels, l),
            )
        }
}

/// Adds a vote.
fn vote(tally: &mut HashMap<u64, u64>, l: u64)
    requires
        old(tally)@.dom().contains(l) ==> old(tally)@[l] < u64::MAX,
    ensures
        final(tally)@ == old(tally)@.insert(
            l,
            if old(tally)@.dom().contains(l) {
                (old(tally)@[l] + 1) as u64
            } else {
                1
            },
        ),
{
    broadcast use vstd::std_specs::hash::group_hash_axioms;

    let n: u64 = match tally.get(&l) {
        Some(n) => *n,
        None => 0,
    };
    tally.insert(l, n + 1);
}

/// The label that a node takes.
fn elect(snap: &CsrSnapshot, labels: &Vec<u64>, u: usize) -> (l: u64)
    requires
        snap.wf(),
        labels@.len() == snap.n(),
        u < snap.n(),
        2 * snap.edges@.len() < u64::MAX,
    ensures
        l == next_label(snap.edges@, labels@, u as int),
{
    broadcast use vstd::std_specs::hash::group_hash_axioms;

    let ghost outs = snap.out_row(u as int);
    let ghost ins = snap.in_row(u as int);
    let (lo, hi): (usize, usize) = (snap.row_ptr[u], snap.row_ptr[u + 1]);
    let (ilo, ihi): (usize, usize) = (snap.in_row_ptr[u], snap.in_row_ptr[u + 1]);
    if lo == hi && ilo == ihi {
        return labels[u];
    }
    let mut tally: HashMap<u64, u64> = HashMap::new();
    let mut k: usize = lo;
    proof {
        assert(outs.take(0) =~= Seq::<Edge>::empty());
        assert(ins.take(0) =~= Seq::<Edge>::empty());
    }
    while k < hi
        invariant
            snap.wf(),
            labels@.len() == snap.n(),
            u < snap.n(),
            2 * snap.edges@.len() < u64::MAX,
            outs == snap.out_row(u as int),
            lo == snap.row_ptr@[u as int],
            hi == snap.row_ptr@[u + 1],
            lo <= k <= hi <= snap.edges@.len(),
            tallied(tally@, outs.take(k - lo), ins.take(0), labels@),
            ins.take(0) == Seq::<Edge>::empty(),
        decreases hi - k,
    {
        let l: u64 = labels[snap.col_idx[k] as usize];
        let ghost before = tally@;
        proof {
            lemma_count_bound(outs.take(k - lo), to_label(labels@, l));
        }
        vote(&mut tally, l);
        proof {
            assert forall|m: u64|
                {
                    &&& #[trigger] tally@.dom().contains(m) <==> count(
                        outs.take(k + 1 - lo),
                        to_label(labels@, m),
                    ) + count(ins.take(0), from_label(labels@, m)) > 0
                    &&& tally@.dom().contains(m) ==> tally@[m] == count(
                        outs.take(k + 1 - lo),
                        to_label(labels@, m),
                    ) + count(ins.take(0), from_label(labels@, m))
                } by {
                let p = to_label(labels@, m);
                lemma_sum_take(outs, k - lo, |e: Edge| bit(p(e)));
                assert(before.dom().contains(m) <==> count(outs.take(k - lo), p) + count(
                    ins.take(0),
                    from_label(labels@, m),
                ) > 0);
            }
        }
        k = k + 1;
    }
    let mut j: usize = ilo;
    assert(outs.take(hi - lo) =~= outs);
    while j < ihi
        invariant
            snap.wf(),
            labels@.len() == snap.n(),
            u < snap.n(),
            2 * snap.edges@.len() < u64::MAX,
            outs == snap.out_row(u as int),
            ins == snap.in_row(u as int),
            outs.len() <= snap.edges@.len(),
            ilo == snap.in_row_ptr@[u as int],
            ihi == snap.in_row_ptr@[u + 1],
            ilo <= j <= ihi <= snap.edges@.len(),
            tallied(tally@, outs, ins.take(j - ilo), labels@),
        decreases ihi - j,
    {
        let l: u64 = labels[snap.in_col_idx[j] as usize];
        let ghost before = tally@;
        proof {
            lemma_count_bound(outs, to_label(labels@, l));
            lemma_count_bound(ins.take(j - ilo), from_label(labels@, l));
        }
        vote(&mut tally, l);
        proof {
            assert forall|m: u64|
                {
                    &&& #[trigger] tally@.dom().contains(m) <==> count(
                        outs,
                        to_label(labels@, m),
                    ) + count(ins.take(j + 1 - ilo), from_label(labels@, m)) > 0
                    &&& tally@.dom().contains(m) ==> tally@[m] == count(
                        outs,
                        to_label(labels@, m),
                    ) + count(ins.take(j + 1 - ilo), from_label(labels@, m))
                } by {
                let p = from_label(labels@, m);
                lemma_sum_take(ins, j - ilo, |e: Edge| bit(p(e)));
                assert(before.dom().contains(m) <==> count(outs, to_label(labels@, m)) + count(
                    ins.take(j - ilo),
                    p,
                ) > 0);
            }
        }
        j = j + 1;
    }
    proof {
        assert(ins.take(ihi - ilo) =~= ins);
        assert forall|l: u64|
            {
                &&& #[trigger] tally@.dom().contains(l) <==> votes(
                    snap.edges@,
                    labels@,
                    u as int,
                    l,
                ) > 0
                &&& tally@.dom().contains(l) ==> tally@[l] == votes(
                    snap.edges@,
                    labels@,
                    u as int,
                    l,
                )
            } by {}
    }
    pick_winner(snap, labels, u, &tally)
}

/// Whether `l` leads the labels that have been looked at so far.
spec fn leads(tally: Map<u64, u64>, l: u64, m: u64) -> bool {
    tally[m] < tally[l] || (tally[m] == tally[l] && l <= m)
}

/// The winner of a tally.
fn pick_winner(
    snap: &CsrSnapshot,
    labels: &Vec<u64>,
    u: usize,
    tally: &HashMap<u64, u64>,
) -> (best: u64)
    requires
        snap.wf(),
        labels@.len() == snap.n(),
        u < snap.n(),
        snap.row_ptr@[u as int] < snap.row_ptr@[u + 1] || snap.in_row_ptr@[u as int]
            < snap.in_row_ptr@[u + 1],
        forall|l: u64|
            {
                &&& #[trigger] tally@.dom().contains(l) <==> votes(
                    snap.edges@,
                    labels@,
                    u as int,
                    l,
                ) > 0
                &&& tally@.dom().contains(l) ==> tally@[l] == votes(
                    snap.edges@,
                    labels@,
                    u as int,
                    l,
                )
            },
    ensures
        best == next_label(snap.edges@, labels@, u as int),
{
    broadcast use vstd::std_specs::hash::group_hash_axioms;

    let ghost outs = snap.out_row(u as int);
    let ghost ins = snap.in_row(u as int);
    let around: Vec<u32> = undirected_neighbors(snap, u);
    proof {
        assert forall|i: int| 0 <= i < around@.len() implies (#[trigger] around@[i]) < snap.n() && votes(
            snap.edges@,
            labels@,
            u as int,
            labels@[around@[i] as int],
        ) > 0 by {
            let l = labels@[around@[i] as int];
            let a = outs.len() as int;
            if i < a {
                assert(outs[i].dst == around@[i]);
                let p = to_label(labels@, l);
                crate::sums::lemma_sum_term(outs, i, |e: Edge| bit(p(e)));
            } else {
                assert(ins[i - a].src == around@[i]);
                let p = from_label(labels@, l);
                crate::sums::lemma_sum_term(ins, i - a, |e: Edge| bit(p(e)));
            }
        }
        assert(around@.len() > 0);
        assert(around@[0] < snap.n());
    }
    let mut best: u64 = labels[around[0] as usize];
    let mut most: u64 = match tally.get(&best) {
        Some(n) => *n,
        None => 0,
    };
    let mut i: usize = 1;
    while i < around.len()
        invariant
            labels@.len() == snap.n(),
            1 <= i <= around@.len(),
            forall|k: int|
                0 <= k < around@.len() ==> (#[trigger] around@[k]) < snap.n() && votes(
                    snap.edges@,
                    labels@,
                    u as int,
                    labels@[around@[k] as int],
                ) > 0,
            forall|l: u64|
                {
                    &&& #[trigger] tally@.dom().contains(l) <==> votes(
                        snap.edges@,
                        labels@,
                        u as int,
                        l,
                    ) > 0
                    &&& tally@.dom().contains(l) ==> tally@[l] == votes(
                        snap.edges@,
                        labels@,
                        u as int,
                        l,
                    )
                },
            tally@.dom().contains(best),
            most == tally@[best],
            forall|k: int|
                0 <= k < i ==> leads(tally@, best, labels@[(#[trigger] around@[k]) as int]),
        decreases around@.len() - i,
    {
        let l: u64 = labels[around[i] as usize];
        assert(tally@.dom().contains(l));
        let n: u64 = match tally.get(&l) {
            Some(n) => *n,
            None => 0,
        };
        if n > most || (n == most && l < best) {
            best = l;
            most = n;
        }
        i = i + 1;
    }
    proof {
        assert forall|m: u64| #[trigger]
            votes(snap.edges@, labels@, u as int, m) < votes(snap.edges@, labels@, u as int, best)
                || (votes(snap.edges@, labels@, u as int, m) == votes(
                snap.edges@,
                labels@,
                u as int,
                best,
            ) && best <= m) by {
            if votes(snap.edges@, labels@, u as int, m) > 0 {
                assert(tally@.dom().contains(m));
                let k = lemma_vote_cast(*snap, labels@, u as int, m, around@);
                assert(leads(tally@, best, labels@[around@[k] as int]));
            }
        }
        assert(wins(snap.edges@, labels@, u as int, best));
        let chosen = next_label(snap.edges@, labels@, u as int);
        assert(outs == snap.edges@.filter(leaving(u as int)));
        assert(ins == snap.edges@.filter(entering(u as int)));
        assert(wins(snap.edges@, labels@, u as int, chosen));
        let (a, b) = (
            votes(snap.edges@, labels@, u as int, chosen),
            votes(snap.edges@, labels@, u as int, best),
        );
        assert(a == b);
    }
    best
}

/// A vote is that of a neighbor.
proof fn lemma_vote_cast(
    snap: CsrSnapshot,
    labels: Seq<u64>,
    u: int,
    m: u64,
    around: Seq<u32>,
) -> (k: int)
    requires
        snap.wf(),
        0 <= u < snap.n(),
        votes(snap.edges@, labels, u, m) > 0,
        around == snap.col_idx@.subrange(
            snap.row_ptr@[u] as int,
            snap.row_ptr@[u + 1] as int,
        ) + snap.in_col_idx@.subrange(
            snap.in_row_ptr@[u] as int,
            snap.in_row_ptr@[u + 1] as int,
        ),
    ensures
        0 <= k < around.len(),
        labels[around[k] as int] == m,
{
    let outs = snap.out_row(u);
    let ins = snap.in_row(u);
    assert(outs == snap.edges@.filter(leaving(u)));
    assert(ins == snap.edges@.filter(entering(u)));
    let p = to_label(labels, m);
    let q = from_label(labels, m);
    if count(outs, p) > 0 {
        let i = lemma_counted(outs, p);
        assert(around[i] == outs[i].dst);
        i
    } else {
        let i = lemma_counted(ins, q);
        assert(around[outs.len() + i] == ins[i].src);
        outs.len() + i
    }
}

/// Where a count is positive, something was counted.
proof fn lemma_counted(s: Seq<Edge>, p: spec_fn(Edge) -> bool) -> (i: int)
    requires
        count(s, p) > 0,
    ensures
        0 <= i < s.len(),
        p(s[i]),
    decreases s.len(),
{
    let last = s.len() - 1;
    if s.len() == 0 {
        0
    } else if p(s[last]) {
        last
    } else {
        lemma_counted(s.drop_last(), p)
    }
}

/// Label propagation: every node starts with a label of its own, its id, and
/// in each round all take the label that most of their neighbors have.
pub fn label_propagation(snap: &CsrSnapshot, max_iterations: usize) -> (out: Vec<u64>)
    requires
        snap.wf(),
        2 * snap.edges@.len() < u64::MAX,
    ensures
        out@ == rounds(snap.edges@, snap.dense_to_id@, max_iterations as nat),
{
    let n: usize = snap.dense_to_id.len();
    let mut labels: Vec<u64> = snap.dense_to_id.clone();
    assert(labels@ =~= snap.dense_to_id@);
    let mut i: usize = 0;
    while i < max_iterations
        invariant
            snap.wf(),
            2 * snap.edges@.len() < u64::MAX,
            n == snap.n(),
            labels@.len() == n,
            i <= max_iterations,
            labels@ == rounds(snap.edges@, snap.dense_to_id@, i as nat),
        decreases max_iterations - i,
    {
        let mut next: Vec<u64> = Vec::new();
        let mut changed: bool = false;
        let mut u: usize = 0;
        while u < n
            invariant
                snap.wf(),
                2 * snap.edges@.len() < u64::MAX,
                n == snap.n(),
                labels@.len() == n,
                u <= n,
                next@.len() == u,
                forall|v: int|
                    0 <= v < u ==> (#[trigger] next@[v]) == next_label(snap.edges@, labels@, v),
                !changed ==> forall|v: int| 0 <= v < u ==> (#[trigger] next@[v]) == labels@[v],
            decreases n - u,
        {
            let l: u64 = elect(snap, &labels, u);
            next.push(l);
            if l != labels[u] {
                changed = true;
                assert(next@[u as int] != labels@[u as int]);
            }
            u = u + 1;
        }
        proof {
            assert(next@ =~= round(snap.edges@, labels@));
            if !changed {
                assert(next@ =~= labels@);
                lemma_rounds_fixed(
                    snap.edges@,
                    snap.dense_to_id@,
                    i as nat,
                    max_iterations as nat,
                );
            }
        }
        if !changed {
            return labels;
        }
        labels = next;
        i = i + 1;
    }
    labels
}

/// The nodes at a distance from `s`.
pub open spec fn at_distance(edges: Seq<Edge>, s: int, l: nat) -> spec_fn(int) -> bool {
    |v: int| at_level(edges, set![s], v, l)
}

/// How many nodes are at each distance from `s`.
pub open spec fn distances_counted(edges: Seq<Edge>, n: nat, s: int, hist: Seq<u64>) -> bool {
    forall|l: nat|
        #![trigger at_distance(edges, s, l)]
        count(upto(n), at_distance(edges, s, l)) == (if l < hist.len() {
            hist[l as int] as nat
        } else {
            0
        })
}

/// Counts the nodes at each distance from `s`, by breadth-first search. The
/// last count is not zero.
pub fn hop_histogram(snap: &CsrSnapshot, s: u32) -> (hist: Vec<u64>)
    requires
        snap.wf(),
        s < snap.n(),
    ensures
        distances_counted(snap.edges@, snap.n(), s as int, hist@),
{
    let n: usize = snap.dense_to_id.len();
    let ghost edges = snap.edges@;
    let ghost from = set![s as int];
    let levels: Vec<u32> = hop_distances(snap, s, None);
    let ghost h = choose|h: nat|
        #[trigger] levels_to(levels@, edges, from, h) && h <= n && within(edges, from, h + 1)
            == within(edges, from, h);
    let mut hist: Vec<u64> = Vec::new();
    let mut v: usize = 0;
    assert(upto(n as nat).take(0) =~= Seq::<int>::empty());
    while v < n
        invariant
            n == snap.n(),
            n < u32::MAX,
            levels@.len() == n,
            levels_to(levels@, edges, from, h),
            h <= n,
            v <= n,
            hist@.len() <= n + 1,
            forall|l: nat|
                #![trigger has_level(levels@, l)]
                count(upto(n as nat).take(v as int), has_level(levels@, l)) == (if l < hist@.len() {
                    hist@[l as int] as nat
                } else {
                    0
                }),
        decreases n - v,
    {
        let level: u32 = levels[v];
        let ghost before = hist@;
        proof {
            assert(upto(n as nat)[v as int] == v);
        }
        if level != UNREACHED {
            while hist.len() <= level as usize
                invariant
                    level <= h <= n,
                    hist@.len() <= n + 1,
                    before.len() <= hist@.len(),
                    forall|l: int| 0 <= l < before.len() ==> hist@[l] == before[l],
                    forall|l: int| before.len() <= l < hist@.len() ==> hist@[l] == 0,
                decreases level + 1 - hist@.len(),
            {
                hist.push(0);
            }
            proof {
                let l = level as nat;
                lemma_count_bound(upto(n as nat).take(v as int), has_level(levels@, l));
            }
            hist.set(level as usize, hist[level as usize] + 1);
        }
        proof {
            assert forall|l: nat|
                #![trigger has_level(levels@, l)]
                count(upto(n as nat).take(v + 1), has_level(levels@, l)) == (if l < hist@.len() {
                    hist@[l as int] as nat
                } else {
                    0
                }) by {
                let p = has_level(levels@, l);
                lemma_sum_take(upto(n as nat), v as int, |d: int| bit(p(d)));
            }
        }
        v = v + 1;
    }
    proof {
        assert(upto(n as nat).take(n as int) =~= upto(n as nat));
        assert forall|l: nat|
            #![trigger at_distance(edges, s as int, l)]
            count(upto(n as nat), at_distance(edges, s as int, l)) == (if l < hist@.len() {
                hist@[l as int] as nat
            } else {
                0
            }) by {
            let p = has_level(levels@, l);
            let q = at_distance(edges, s as int, l);
            assert forall|i: int| 0 <= i < n implies (|d: int| bit(p(d)))(
                #[trigger] upto(n as nat)[i],
            ) == (|d: int| bit(q(d)))(upto(n as nat)[i]) by {
                assert(upto(n as nat)[i] == i);
                let level = levels@[i];
                if level == UNREACHED {
                    if at_level(edges, from, i, l) {
                        if l <= h {
                            lemma_within_mono(edges, from, l, h);
                        } else {
                            lemma_within_closed(edges, from, h, l);
                        }
                    }
                } else if at_level(edges, from, i, l) {
                    lemma_level_unique(edges, from, i, l, level as nat);
                }
            }
            lemma_sum_ext(upto(n as nat), |d: int| bit(p(d)), |d: int| bit(q(d)));
        }
    }
    hist
}

/// The nodes with a recorded level.
spec fn has_level(levels: Seq<u32>, l: nat) -> spec_fn(int) -> bool {
    |v: int| levels[v] != UNREACHED && levels[v] == l
}

/// The nodes that are counted from distance one up to `k`.
pub open spec fn reached_by(hist: Seq<u64>, k: int) -> int
    decreases k,
{
    if k <= 0 {
        0
    } else {
        reached_by(hist, k - 1) + hist[k]
    }
}

/// The distances to them, all together.
pub open spec fn distance_by(hist: Seq<u64>, k: int) -> int
    decreases k,
{
    if k <= 0 {
        0
    } else {
        distance_by(hist, k - 1) + k * hist[k]
    }
}

/// How many other nodes a histogram counts, and how far away they are all together.
pub fn reach_totals(hist: &Vec<u64>) -> (r: (u64, u128))
    requires
        hist@.len() > 0 ==> reached_by(hist@, hist@.len() - 1) <= u64::MAX,
        hist@.len() > 0 ==> distance_by(hist@, hist@.len() - 1) <= u128::MAX,
    ensures
        r.0 == reached_by(hist@, hist@.len() - 1),
        r.1 == distance_by(hist@, hist@.len() - 1),
{
    let mut reachable: u64 = 0;
    let mut total: u128 = 0;
    let mut k: usize = 1;
    while k < hist.len()
        invariant
            1 <= k,
            k <= hist@.len() || k == 1,
            hist@.len() > 0 ==> reached_by(hist@, hist@.len() - 1) <= u64::MAX,
            hist@.len() > 0 ==> distance_by(hist@, hist@.len() - 1) <= u128::MAX,
            reachable == reached_by(hist@, k - 1),
            total == distance_by(hist@, k - 1),
        decreases hist@.len() - k,
    {
        proof {
            lemma_totals_ascend(hist@, k as int, hist@.len() - 1);
            assert(k * hist@[k as int] >= 0) by (nonlinear_arith)
                requires
                    k >= 0,
                    hist@[k as int] >= 0,
            ;
        }
        reachable = reachable + hist[k];
        total = total + (k as u128) * (hist[k] as u128);
        k = k + 1;
    }
    (reachable, total)
}

proof fn lemma_totals_ascend(hist: Seq<u64>, a: int, b: int)
    requires
        0 <= a <= b < hist.len(),
    ensures
        reached_by(hist, a) <= reached_by(hist, b),
        distance_by(hist, a) <= distance_by(hist, b),
    decreases b,
{
    if a < b {
        lemma_totals_ascend(hist, a, b - 1);
        assert(b * hist[b] >= 0) by (nonlinear_arith)
            requires
                b >= 0,
                hist[b] >= 0,
        ;
    }
}

} // verus!
