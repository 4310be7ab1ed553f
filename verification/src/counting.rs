//! Pattern counts over a snapshot: how many ways edges can fill a pattern.

use vstd::prelude::*;

use crate::csr::{entering, leaving, source, target, CsrSnapshot, Edge};
use crate::schema::TypeId;
use crate::sums::{
    bit, count, lemma_count_bound, lemma_sum_classes, lemma_sum_ext, lemma_sum_filter,
    lemma_sum_one, lemma_sum_plus, lemma_sum_product, lemma_sum_take, lemma_sum_zero, sum, upto,
};

verus! {

/// Items below which a pass is not worth splitting.
pub const MIN_PARALLEL_WORK: usize = 0x40000;

/// The most workers that a pass is spread over: it is bound by memory bandwidth,
/// which more workers do not add to.
pub const MAX_SCAN_THREADS: usize = 4;

/// Whether an edge type satisfies a hop; `None` admits every type.
pub open spec fn type_admits(want: Option<TypeId>, have: TypeId) -> bool {
    want is None || want == Some(have)
}

/// Whether a mask admits a node; an absent mask admits every node.
pub open spec fn mask_admits(mask: Option<Vec<bool>>, d: int) -> bool {
    mask is None || mask->0@[d]
}

/// A mask that is absent or covers `n` nodes.
pub open spec fn mask_covers(mask: Option<Vec<bool>>, n: nat) -> bool {
    mask matches Some(m) ==> m@.len() == n
}

/// The edges that can fill a hop: of the wanted type, between admitted nodes.
pub open spec fn hop(
    want: Option<TypeId>,
    from: Option<Vec<bool>>,
    to: Option<Vec<bool>>,
) -> spec_fn(Edge) -> bool {
    |e: Edge| type_admits(want, e.ty) && mask_admits(from, e.src) && mask_admits(to, e.dst)
}

/// The ways to fill a one-hop pattern.
pub open spec fn one_hop_total(edges: Seq<Edge>, first: spec_fn(Edge) -> bool) -> nat {
    count(edges, first)
}

/// Two edges that fill a two-hop pattern: they chain, and they are not the same edge.
pub open spec fn chained(
    first: spec_fn(Edge) -> bool,
    second: spec_fn(Edge) -> bool,
    e1: Edge,
    e2: Edge,
) -> bool {
    first(e1) && second(e2) && e1.dst == e2.src && e1.id != e2.id
}

/// The ways to fill a two-hop pattern: the ordered pairs of distinct edges that chain.
pub open spec fn two_hop_total(
    edges: Seq<Edge>,
    first: spec_fn(Edge) -> bool,
    second: spec_fn(Edge) -> bool,
) -> nat {
    sum(edges, |e1: Edge| count(edges, |e2: Edge| chained(first, second, e1, e2)))
}

/// The ways to fill a two-hop pattern through the middle node `b`.
pub open spec fn through(
    edges: Seq<Edge>,
    first: spec_fn(Edge) -> bool,
    second: spec_fn(Edge) -> bool,
    b: int,
) -> nat {
    sum(
        edges.filter(entering(b)),
        |e1: Edge| count(edges.filter(leaving(b)), distinct_second(first, second, e1)),
    )
}

/// The edges that can follow `e1`, chaining aside.
pub open spec fn distinct_second(
    first: spec_fn(Edge) -> bool,
    second: spec_fn(Edge) -> bool,
    e1: Edge,
) -> spec_fn(Edge) -> bool {
    |e2: Edge| first(e1) && second(e2) && e1.id != e2.id
}

/// The ways through the middle nodes `lo..hi`.
pub open spec fn through_range(
    edges: Seq<Edge>,
    first: spec_fn(Edge) -> bool,
    second: spec_fn(Edge) -> bool,
    lo: int,
    hi: int,
) -> nat
    decreases hi - lo,
{
    if hi <= lo {
        0
    } else {
        through_range(edges, first, second, lo, hi - 1) + through(edges, first, second, hi - 1)
    }
}

/// The self-loops at `b` that could fill both hops.
pub open spec fn loops(
    edges: Seq<Edge>,
    first: spec_fn(Edge) -> bool,
    second: spec_fn(Edge) -> bool,
    b: int,
) -> nat {
    count(edges.filter(leaving(b)), |e: Edge| first(e) && second(e) && e.dst == b)
}

/// Disjoint ranges of middle nodes add up.
pub proof fn lemma_through_range_split(
    edges: Seq<Edge>,
    first: spec_fn(Edge) -> bool,
    second: spec_fn(Edge) -> bool,
    lo: int,
    mid: int,
    hi: int,
)
    requires
        lo <= mid <= hi,
    ensures
        through_range(edges, first, second, lo, hi) == through_range(edges, first, second, lo, mid)
            + through_range(edges, first, second, mid, hi),
    decreases hi - mid,
{
    if mid < hi {
        lemma_through_range_split(edges, first, second, lo, mid, hi - 1);
    }
}

/// The middle nodes partition the two-hop matches.
pub proof fn lemma_two_hops_by_middle(
    edges: Seq<Edge>,
    n: nat,
    first: spec_fn(Edge) -> bool,
    second: spec_fn(Edge) -> bool,
)
    requires
        forall|k: int| 0 <= k < edges.len() ==> 0 <= (#[trigger] edges[k]).dst < n,
    ensures
        two_hop_total(edges, first, second) == through_range(edges, first, second, 0, n as int),
{
    let f = |e1: Edge| count(edges, |e2: Edge| chained(first, second, e1, e2));
    lemma_sum_classes(edges, n, target(), f);
    let g = |b: int| sum(edges.filter(crate::sums::of_class(target(), b)), f);
    let h = |b: int| through(edges, first, second, b);
    assert forall|i: int| 0 <= i < upto(n).len() implies g(#[trigger] upto(n)[i]) == h(
        upto(n)[i],
    ) by {
        let b = upto(n)[i];
        let entered = edges.filter(entering(b));
        let f2 = |e1: Edge|
            count(edges.filter(leaving(b)), distinct_second(first, second, e1));
        assert forall|j: int| 0 <= j < entered.len() implies f(#[trigger] entered[j]) == f2(
            entered[j],
        ) by {
            let e1 = entered[j];
            edges.lemma_filter_pred(entering(b), j);
            assert(e1.dst == b);
            let pick = distinct_second(first, second, e1);
            let weigh = |e2: Edge| bit(pick(e2));
            lemma_sum_filter(edges, leaving(b), weigh);
            lemma_sum_ext(
                edges,
                |e2: Edge| bit((|e2: Edge| chained(first, second, e1, e2))(e2)),
                |e2: Edge|
                    if leaving(b)(e2) {
                        weigh(e2)
                    } else {
                        0
                    },
            );
        }
        lemma_sum_ext(entered, f, f2);
    }
    lemma_sum_ext(upto(n), g, h);
    lemma_range_is_sum(edges, first, second, n);
}

proof fn lemma_range_is_sum(
    edges: Seq<Edge>,
    first: spec_fn(Edge) -> bool,
    second: spec_fn(Edge) -> bool,
    n: nat,
)
    ensures
        sum(upto(n), |b: int| through(edges, first, second, b)) == through_range(
            edges,
            first,
            second,
            0,
            n as int,
        ),
    decreases n,
{
    if n > 0 {
        assert(upto(n).drop_last() =~= upto((n - 1) as nat));
        lemma_range_is_sum(edges, first, second, (n - 1) as nat);
    }
}

/// The matches through `b`, plus the self-loops that would fill both hops, are
/// the product of the two degrees.
pub proof fn lemma_through_is_product(
    edges: Seq<Edge>,
    first: spec_fn(Edge) -> bool,
    second: spec_fn(Edge) -> bool,
    b: int,
)
    requires
        crate::csr::edges_ascending(edges),
    ensures
        through(edges, first, second, b) + loops(edges, first, second, b) == count(
            edges.filter(entering(b)),
            first,
        ) * count(edges.filter(leaving(b)), second),
{
    let ins = edges.filter(entering(b));
    let outs = edges.filter(leaving(b));
    let p = |e: Edge| bit(first(e));
    let q = |e: Edge| bit(second(e));
    lemma_sum_product(ins, outs, p, q);
    let product = |e1: Edge| sum(outs, |e2: Edge| p(e1) * q(e2));
    let apart = |e1: Edge| count(outs, distinct_second(first, second, e1));
    let both = |e: Edge| bit(first(e) && second(e) && e.src == b);
    let split = |e1: Edge| apart(e1) + both(e1);
    assert forall|j: int| 0 <= j < ins.len() implies product(#[trigger] ins[j]) == split(
        ins[j],
    ) by {
        let e1 = ins[j];
        let pick = distinct_second(first, second, e1);
        let w1 = |e2: Edge| bit(pick(e2));
        let w2 = |e2: Edge| bit(first(e1) && second(e2) && e1.id == e2.id);
        lemma_sum_plus(outs, w1, w2);
        assert forall|i: int| 0 <= i < outs.len() implies (|e2: Edge| p(e1) * q(e2))(
            #[trigger] outs[i],
        ) == (|e2: Edge| w1(e2) + w2(e2))(outs[i]) by {
            let e2 = outs[i];
            assert(p(e1) * q(e2) == bit(first(e1) && second(e2))) by {
                if first(e1) {
                    assert(1 * q(e2) == q(e2));
                } else {
                    assert(0 * q(e2) == 0);
                }
            }
        }
        lemma_sum_ext(outs, |e2: Edge| p(e1) * q(e2), |e2: Edge| w1(e2) + w2(e2));
        lemma_same_edge(edges, first, second, b, j);
    }
    lemma_sum_ext(ins, product, split);
    lemma_sum_plus(ins, apart, both);
    // The self-loops can be counted in the row of `b` as well.
    lemma_sum_filter(edges, entering(b), both);
    let both_out = |e: Edge| bit((|e: Edge| first(e) && second(e) && e.dst == b)(e));
    lemma_sum_filter(edges, leaving(b), both_out);
    lemma_sum_ext(
        edges,
        |e: Edge|
            if entering(b)(e) {
                both(e)
            } else {
                0
            },
        |e: Edge|
            if leaving(b)(e) {
                both_out(e)
            } else {
                0
            },
    );
}

/// Only the edge itself, where it is a self-loop at `b`, repeats its id in the row of `b`.
proof fn lemma_same_edge(
    edges: Seq<Edge>,
    first: spec_fn(Edge) -> bool,
    second: spec_fn(Edge) -> bool,
    b: int,
    j: int,
)
    requires
        crate::csr::edges_ascending(edges),
        0 <= j < edges.filter(entering(b)).len(),
    ensures
        ({
            let e1 = edges.filter(entering(b))[j];
            sum(
                edges.filter(leaving(b)),
                |e2: Edge| bit(first(e1) && second(e2) && e1.id == e2.id),
            ) == bit(first(e1) && second(e1) && e1.src == b)
        }),
{
    let ins = edges.filter(entering(b));
    let outs = edges.filter(leaving(b));
    let e1 = ins[j];
    let w = |e2: Edge| bit(first(e1) && second(e2) && e1.id == e2.id);
    edges.lemma_filter_contains_rev(entering(b), e1);
    assert(ins.contains(e1));
    assert(edges.contains(e1));
    let k = choose|k: int| 0 <= k < edges.len() && edges[k] == e1;
    lemma_sum_filter(edges, leaving(b), w);
    let masked = |e2: Edge|
        if leaving(b)(e2) {
            w(e2)
        } else {
            0
        };
    assert forall|i: int| 0 <= i < edges.len() && i != k implies masked(#[trigger] edges[i])
        == 0 by {
        assert(edges[i].id != edges[k].id);
    }
    lemma_sum_one(edges, k, masked);
}

/// Whether a mask admits a node.
pub fn admits(mask: &Option<Vec<bool>>, d: usize) -> (b: bool)
    requires
        mask_covers(*mask, d as nat + 1) || (mask matches Some(m) ==> d < m@.len()),
    ensures
        b == mask_admits(*mask, d as int),
{
    match mask {
        None => true,
        Some(m) => m[d],
    }
}

/// Whether an edge type satisfies a hop.
pub fn type_ok(want: Option<TypeId>, have: TypeId) -> (b: bool)
    ensures
        b == type_admits(want, have),
{
    match want {
        None => true,
        Some(t) => t == have,
    }
}

/// Counts the edges of row `d` that fill a hop out of `d`.
pub(crate) fn count_out(
    snap: &CsrSnapshot,
    d: usize,
    want: Option<TypeId>,
    from: &Option<Vec<bool>>,
    to: &Option<Vec<bool>>,
) -> (c: u64)
    requires
        snap.wf(),
        d < snap.n(),
        mask_covers(*to, snap.n()),
        mask_admits(*from, d as int),
    ensures
        c == count(snap.edges@.filter(leaving(d as int)), hop(want, *from, *to)),
        c <= snap.edges@.len(),
{
    let ghost row = snap.out_row(d as int);
    let ghost f = hop(want, *from, *to);
    let ghost w = |e: Edge| bit(f(e));
    let lo: usize = snap.row_ptr[d];
    let hi: usize = snap.row_ptr[d + 1];
    let mut c: u64 = 0;
    let mut k: usize = lo;
    assert(row.take(0) =~= Seq::empty());
    while k < hi
        invariant
            snap.wf(),
            d < snap.n(),
            mask_covers(*to, snap.n()),
            mask_admits(*from, d as int),
            row == snap.out_row(d as int),
            f == hop(want, *from, *to),
            w == (|e: Edge| bit(f(e))),
            lo == snap.row_ptr@[d as int],
            hi == snap.row_ptr@[d + 1],
            lo <= k <= hi <= snap.edges@.len(),
            c == sum(row.take(k - lo), w),
            c <= k - lo,
        decreases hi - k,
    {
        proof {
            lemma_sum_take(row, k - lo, w);
        }
        let col: usize = snap.col_idx[k] as usize;
        if type_ok(want, snap.edge_type[k]) && admits(to, col) {
            c = c + 1;
        }
        k = k + 1;
    }
    assert(row.take(hi - lo) =~= row);
    c
}

/// Counts the edges of the transposed row `d` that fill a hop into `d`.
pub(crate) fn count_in(
    snap: &CsrSnapshot,
    d: usize,
    want: Option<TypeId>,
    from: &Option<Vec<bool>>,
    to: &Option<Vec<bool>>,
) -> (c: u64)
    requires
        snap.wf(),
        d < snap.n(),
        mask_covers(*from, snap.n()),
        mask_admits(*to, d as int),
    ensures
        c == count(snap.edges@.filter(entering(d as int)), hop(want, *from, *to)),
        c <= snap.edges@.len(),
{
    let ghost row = snap.in_row(d as int);
    let ghost f = hop(want, *from, *to);
    let ghost w = |e: Edge| bit(f(e));
    let lo: usize = snap.in_row_ptr[d];
    let hi: usize = snap.in_row_ptr[d + 1];
    let mut c: u64 = 0;
    let mut k: usize = lo;
    assert(row.take(0) =~= Seq::empty());
    while k < hi
        invariant
            snap.wf(),
            d < snap.n(),
            mask_covers(*from, snap.n()),
            mask_admits(*to, d as int),
            row == snap.in_row(d as int),
            f == hop(want, *from, *to),
            w == (|e: Edge| bit(f(e))),
            lo == snap.in_row_ptr@[d as int],
            hi == snap.in_row_ptr@[d + 1],
            lo <= k <= hi <= snap.edges@.len(),
            c == sum(row.take(k - lo), w),
            c <= k - lo,
        decreases hi - k,
    {
        proof {
            lemma_sum_take(row, k - lo, w);
        }
        let col: usize = snap.in_col_idx[k] as usize;
        if type_ok(want, snap.in_edge_type[k]) && admits(from, col) {
            c = c + 1;
        }
        k = k + 1;
    }
    assert(row.take(hi - lo) =~= row);
    c
}

/// Counts the self-loops of `b` that satisfy both hops.
fn count_loops(
    snap: &CsrSnapshot,
    b: usize,
    t1: Option<TypeId>,
    t2: Option<TypeId>,
    m0: &Option<Vec<bool>>,
    m1: &Option<Vec<bool>>,
    m2: &Option<Vec<bool>>,
) -> (c: u64)
    requires
        snap.wf(),
        b < snap.n(),
        mask_covers(*m0, snap.n()),
        mask_covers(*m2, snap.n()),
        mask_admits(*m1, b as int),
    ensures
        c == loops(snap.edges@, hop(t1, *m0, *m1), hop(t2, *m1, *m2), b as int),
        c <= snap.edges@.len(),
{
    let ghost first = hop(t1, *m0, *m1);
    let ghost second = hop(t2, *m1, *m2);
    let ghost row = snap.out_row(b as int);
    let ghost f = |e: Edge| first(e) && second(e) && e.dst == b as int;
    let ghost w = |e: Edge| bit(f(e));
    let lo: usize = snap.row_ptr[b];
    let hi: usize = snap.row_ptr[b + 1];
    let mut c: u64 = 0;
    if !admits(m0, b) || !admits(m2, b) {
        proof {
            lemma_sum_zero(row, w);
        }
        return 0;
    }
    let mut k: usize = lo;
    assert(row.take(0) =~= Seq::empty());
    while k < hi
        invariant
            snap.wf(),
            b < snap.n(),
            mask_admits(*m0, b as int),
            mask_admits(*m1, b as int),
            mask_admits(*m2, b as int),
            row == snap.out_row(b as int),
            first == hop(t1, *m0, *m1),
            second == hop(t2, *m1, *m2),
            f == (|e: Edge| first(e) && second(e) && e.dst == b as int),
            w == (|e: Edge| bit(f(e))),
            lo == snap.row_ptr@[b as int],
            hi == snap.row_ptr@[b + 1],
            lo <= k <= hi <= snap.edges@.len(),
            c == sum(row.take(k - lo), w),
            c <= k - lo,
        decreases hi - k,
    {
        proof {
            lemma_sum_take(row, k - lo, w);
        }
        if snap.col_idx[k] as usize == b && type_ok(t1, snap.edge_type[k]) && type_ok(
            t2,
            snap.edge_type[k],
        ) {
            c = c + 1;
        }
        k = k + 1;
    }
    assert(row.take(hi - lo) =~= row);
    c
}

/// Counts the edges of the wanted type between admitted nodes.
pub fn count_one_hop(
    snap: &CsrSnapshot,
    want: Option<TypeId>,
    m0: &Option<Vec<bool>>,
    m1: &Option<Vec<bool>>,
) -> (total: u64)
    requires
        snap.wf(),
        mask_covers(*m0, snap.n()),
        mask_covers(*m1, snap.n()),
    ensures
        total == one_hop_total(snap.edges@, hop(want, *m0, *m1)),
{
    let ghost f = hop(want, *m0, *m1);
    let ghost w = |e: Edge| bit(f(e));
    let ghost part = |d: int| sum(snap.edges@.filter(leaving(d)), w);
    let n: usize = snap.dense_to_id.len();
    proof {
        lemma_sum_classes(snap.edges@, n as nat, source(), w);
        lemma_count_bound(snap.edges@, f);
    }
    assert(sum(upto(n as nat), part) == sum(snap.edges@, w)) by {
        lemma_sum_ext(
            upto(n as nat),
            part,
            |d: int| sum(snap.edges@.filter(crate::sums::of_class(source(), d)), w),
        );
    }
    let mut total: u64 = 0;
    let mut v0: usize = 0;
    assert(upto(n as nat).take(0) =~= Seq::empty());
    while v0 < n
        invariant
            snap.wf(),
            n == snap.n(),
            mask_covers(*m0, snap.n()),
            mask_covers(*m1, snap.n()),
            f == hop(want, *m0, *m1),
            w == (|e: Edge| bit(f(e))),
            part == (|d: int| sum(snap.edges@.filter(leaving(d)), w)),
            v0 <= n,
            total == sum(upto(n as nat).take(v0 as int), part),
            sum(upto(n as nat), part) <= snap.edges@.len(),
        decreases n - v0,
    {
        proof {
            lemma_sum_take(upto(n as nat), v0 as int, part);
        }
        if admits(m0, v0) {
            total = total + count_out(snap, v0, want, m0, m1);
        } else {
            proof {
                let row = snap.edges@.filter(leaving(v0 as int));
                assert forall|i: int| 0 <= i < row.len() implies w(#[trigger] row[i]) == 0 by {
                    snap.edges@.lemma_filter_pred(leaving(v0 as int), i);
                }
                lemma_sum_zero(row, w);
            }
        }
        v0 = v0 + 1;
    }
    assert(upto(n as nat).take(n as int) =~= upto(n as nat));
    total
}

/// Counts the two-hop matches through the middle nodes `lo..hi`.
pub fn count_middles(
    snap: &CsrSnapshot,
    t1: Option<TypeId>,
    t2: Option<TypeId>,
    m0: &Option<Vec<bool>>,
    m1: &Option<Vec<bool>>,
    m2: &Option<Vec<bool>>,
    lo: usize,
    hi: usize,
) -> (total: u64)
    requires
        snap.wf(),
        mask_covers(*m0, snap.n()),
        mask_covers(*m1, snap.n()),
        mask_covers(*m2, snap.n()),
        lo <= hi <= snap.n(),
        through_range(snap.edges@, hop(t1, *m0, *m1), hop(t2, *m1, *m2), lo as int, hi as int)
            <= u64::MAX,
    ensures
        total == through_range(
            snap.edges@,
            hop(t1, *m0, *m1),
            hop(t2, *m1, *m2),
            lo as int,
            hi as int,
        ),
{
    let ghost first = hop(t1, *m0, *m1);
    let ghost second = hop(t2, *m1, *m2);
    let ghost edges = snap.edges@;
    let mut total: u64 = 0;
    let mut b: usize = lo;
    while b < hi
        invariant
            snap.wf(),
            mask_covers(*m0, snap.n()),
            mask_covers(*m1, snap.n()),
            mask_covers(*m2, snap.n()),
            first == hop(t1, *m0, *m1),
            second == hop(t2, *m1, *m2),
            edges == snap.edges@,
            lo <= b <= hi <= snap.n(),
            through_range(edges, first, second, lo as int, hi as int) <= u64::MAX,
            total == through_range(edges, first, second, lo as int, b as int),
        decreases hi - b,
    {
        proof {
            lemma_through_range_split(edges, first, second, lo as int, b + 1, hi as int);
            lemma_through_is_product(edges, first, second, b as int);
        }
        if admits(m1, b) {
            let indeg: u64 = count_in(snap, b, t1, m0, m1);
            if indeg == 0 {
                assert(0 * count(edges.filter(leaving(b as int)), second) == 0);
            } else {
                let outdeg: u64 = count_out(snap, b, t2, m1, m2);
                let shared: u64 = count_loops(snap, b, t1, t2, m0, m1, m2);
                proof {
                    assert(indeg as nat * outdeg as nat <= u64::MAX as nat * u64::MAX as nat)
                        by (nonlinear_arith)
                        requires
                            indeg <= u64::MAX,
                            outdeg <= u64::MAX,
                    ;
                }
                let pairs: u128 = indeg as u128 * outdeg as u128;
                total = (total as u128 + (pairs - shared as u128)) as u64;
            }
        } else {
            proof {
                let ins = edges.filter(entering(b as int));
                let w = |e: Edge| bit(first(e));
                assert forall|i: int| 0 <= i < ins.len() implies w(#[trigger] ins[i]) == 0 by {
                    edges.lemma_filter_pred(entering(b as int), i);
                }
                lemma_sum_zero(ins, w);
                assert(0 * count(edges.filter(leaving(b as int)), second) == 0);
            }
        }
        b = b + 1;
    }
    total
}

/// Counts the two-hop matches, the middle nodes split into `workers` ranges of
/// equal size. How they are split does not change the count.
pub fn count_two_hops(
    snap: &CsrSnapshot,
    t1: Option<TypeId>,
    t2: Option<TypeId>,
    m0: &Option<Vec<bool>>,
    m1: &Option<Vec<bool>>,
    m2: &Option<Vec<bool>>,
    workers: usize,
) -> (total: u64)
    requires
        snap.wf(),
        mask_covers(*m0, snap.n()),
        mask_covers(*m1, snap.n()),
        mask_covers(*m2, snap.n()),
        two_hop_total(snap.edges@, hop(t1, *m0, *m1), hop(t2, *m1, *m2)) <= u64::MAX,
    ensures
        total == two_hop_total(snap.edges@, hop(t1, *m0, *m1), hop(t2, *m1, *m2)),
{
    let ghost first = hop(t1, *m0, *m1);
    let ghost second = hop(t2, *m1, *m2);
    let ghost edges = snap.edges@;
    let n: usize = snap.dense_to_id.len();
    proof {
        lemma_two_hops_by_middle(edges, n as nat, first, second);
    }
    if workers <= 1 {
        return count_middles(snap, t1, t2, m0, m1, m2, 0, n);
    }
    let chunk: usize = if n % workers == 0 {
        n / workers
    } else {
        n / workers + 1
    };
    let mut total: u64 = 0;
    let mut lo: usize = 0;
    let mut worker: usize = 0;
    assert(chunk * 0 == 0);
    while worker < workers
        invariant
            snap.wf(),
            n == snap.n(),
            mask_covers(*m0, snap.n()),
            mask_covers(*m1, snap.n()),
            mask_covers(*m2, snap.n()),
            first == hop(t1, *m0, *m1),
            second == hop(t2, *m1, *m2),
            edges == snap.edges@,
            worker <= workers,
            lo <= n,
            lo == n || lo == chunk * worker,
            through_range(edges, first, second, 0, n as int) <= u64::MAX,
            total == through_range(edges, first, second, 0, lo as int),
        decreases workers - worker,
    {
        let hi: usize = if n - lo < chunk {
            n
        } else {
            lo + chunk
        };
        proof {
            lemma_through_range_split(edges, first, second, 0, lo as int, hi as int);
            lemma_through_range_split(edges, first, second, 0, hi as int, n as int);
            assert(chunk * (worker + 1) == chunk * worker + chunk) by (nonlinear_arith);
        }
        let part: u64 = count_middles(snap, t1, t2, m0, m1, m2, lo, hi);
        total = total.saturating_add(part);
        lo = hi;
        worker = worker + 1;
    }
    assert(chunk * workers >= n) by {
        let q = n / workers;
        assert(n == q * workers + n % workers) by (nonlinear_arith)
            requires
                q == n / workers,
                workers > 0,
        ;
        assert((q + 1) * workers == q * workers + workers) by (nonlinear_arith);
    }
    total
}

/// The workers that a pass over `work` items is spread over, where `available`
/// are available: a small pass stays on one, and no pass takes more than four.
pub fn kernel_threads(available: usize, work: usize) -> (threads: usize)
    ensures
        threads == (if work < 0x40000 {
            1
        } else if available < 4 {
            available
        } else {
            4
        }),
{
    if work < MIN_PARALLEL_WORK {
        1
    } else if available < MAX_SCAN_THREADS {
        available
    } else {
        MAX_SCAN_THREADS
    }
}

} // verus!
