//! Directed triangle counts by sorted merges of typed rows.

use vstd::prelude::*;

use crate::counting::{admits, hop, mask_admits, mask_covers, type_admits};
use crate::csr::{entering, leaving, source, CsrSnapshot, Edge};
use crate::schema::{EdgeId, TypeId};
use crate::sums::{
    bit, count, lemma_sum_add, lemma_sum_classes, lemma_sum_ext, lemma_sum_filter, lemma_sum_plus,
    lemma_sum_prefix, lemma_sum_take, lemma_sum_zero, of_class, sum, upto,
};
use crate::typed_adj::{
    backward_link, forward_link, lemma_links_sum, link_le, links_of, links_sorted, of_type,
    typed_in_sorted, typed_out_sorted, Link, TypedSortedAdj,
};

verus! {

/// Three edges that fill the triangle pattern: each satisfies its hop, they
/// close a cycle, and no two are the same edge.
pub open spec fn triangle(
    h1: spec_fn(Edge) -> bool,
    h2: spec_fn(Edge) -> bool,
    h3: spec_fn(Edge) -> bool,
    e1: Edge,
    e2: Edge,
    e3: Edge,
) -> bool {
    &&& h1(e1) && h2(e2) && h3(e3)
    &&& e1.dst == e2.src && e2.dst == e3.src && e3.dst == e1.src
    &&& e1.id != e2.id && e2.id != e3.id && e1.id != e3.id
}

/// The ways to fill the triangle pattern: the ordered triples of distinct edges
/// that close a cycle.
pub open spec fn triangle_total(
    edges: Seq<Edge>,
    h1: spec_fn(Edge) -> bool,
    h2: spec_fn(Edge) -> bool,
    h3: spec_fn(Edge) -> bool,
) -> nat {
    sum(edges, |e1: Edge| from_first(edges, h1, h2, h3, e1))
}

/// The triangles whose first edge is `e1`.
pub open spec fn from_first(
    edges: Seq<Edge>,
    h1: spec_fn(Edge) -> bool,
    h2: spec_fn(Edge) -> bool,
    h3: spec_fn(Edge) -> bool,
    e1: Edge,
) -> nat {
    sum(edges, |e2: Edge| count(edges, |e3: Edge| triangle(h1, h2, h3, e1, e2, e3)))
}

/// Sums a weight over all pairs of two rows.
pub open spec fn pair_sum(r: Seq<Link>, s: Seq<Link>, w: spec_fn(Link, Link) -> nat) -> nat {
    sum(r, |y: Link| sum(s, |z: Link| w(y, z)))
}

/// Weighs a hop-two link and a hop-three link that meet in an admitted node other than `skip`.
pub open spec fn meets(m2: Option<Vec<bool>>, skip: Option<u32>) -> spec_fn(Link, Link) -> nat {
    |y: Link, z: Link| bit(y.0 == z.0 && mask_admits(m2, y.0 as int) && skip != Some(y.0))
}

/// Weighs three links that close a triangle.
pub open spec fn closes(m1: Option<Vec<bool>>, m2: Option<Vec<bool>>, x: Link) -> spec_fn(
    Link,
    Link,
) -> nat {
    |y: Link, z: Link|
        bit(
            mask_admits(m1, x.0 as int) && y.0 == z.0 && mask_admits(m2, y.0 as int) && x.1 != y.1
                && y.1 != z.1 && x.1 != z.1,
        )
}

/// Weighs three distinct self-loops of `a`.
pub open spec fn loops_at(a: u32, m2: Option<Vec<bool>>, x: Link) -> spec_fn(Link, Link) -> nat {
    |y: Link, z: Link|
        bit(
            y.0 == a && z.0 == a && mask_admits(m2, a as int) && x.1 != y.1 && y.1 != z.1 && x.1
                != z.1,
        )
}

/// Weighs a link that is neither of two edges.
pub open spec fn neither(e1: EdgeId, e2: EdgeId) -> spec_fn(Link) -> nat {
    |z: Link| bit(z.1 != e1 && z.1 != e2)
}

proof fn lemma_pair_ext(
    r: Seq<Link>,
    s: Seq<Link>,
    w: spec_fn(Link, Link) -> nat,
    v: spec_fn(Link, Link) -> nat,
)
    requires
        forall|i: int, j: int|
            0 <= i < r.len() && 0 <= j < s.len() ==> #[trigger] w(r[i], s[j]) == v(r[i], s[j]),
    ensures
        pair_sum(r, s, w) == pair_sum(r, s, v),
{
    let f = |y: Link| sum(s, |z: Link| w(y, z));
    let g = |y: Link| sum(s, |z: Link| v(y, z));
    assert forall|i: int| 0 <= i < r.len() implies f(#[trigger] r[i]) == g(r[i]) by {
        let y = r[i];
        assert forall|j: int| 0 <= j < s.len() implies (|z: Link| w(y, z))(#[trigger] s[j]) == (
        |z: Link| v(y, z))(s[j]) by {
            assert(w(r[i], s[j]) == v(r[i], s[j]));
        }
        lemma_sum_ext(s, |z: Link| w(y, z), |z: Link| v(y, z));
    }
    lemma_sum_ext(r, f, g);
}

proof fn lemma_pair_zero(r: Seq<Link>, s: Seq<Link>, w: spec_fn(Link, Link) -> nat)
    requires
        forall|i: int, j: int|
            0 <= i < r.len() && 0 <= j < s.len() ==> #[trigger] w(r[i], s[j]) == 0,
    ensures
        pair_sum(r, s, w) == 0,
{
    let f = |y: Link| sum(s, |z: Link| w(y, z));
    assert forall|i: int| 0 <= i < r.len() implies f(#[trigger] r[i]) == 0 by {
        let y = r[i];
        assert forall|j: int| 0 <= j < s.len() implies (|z: Link| w(y, z))(#[trigger] s[j])
            == 0 by {
            assert(w(r[i], s[j]) == 0);
        }
        lemma_sum_zero(s, |z: Link| w(y, z));
    }
    lemma_sum_zero(r, f);
}

proof fn lemma_pair_add_left(
    r1: Seq<Link>,
    r2: Seq<Link>,
    s: Seq<Link>,
    w: spec_fn(Link, Link) -> nat,
)
    ensures
        pair_sum(r1 + r2, s, w) == pair_sum(r1, s, w) + pair_sum(r2, s, w),
{
    lemma_sum_add(r1, r2, |y: Link| sum(s, |z: Link| w(y, z)));
}

proof fn lemma_pair_add_right(
    r: Seq<Link>,
    s1: Seq<Link>,
    s2: Seq<Link>,
    w: spec_fn(Link, Link) -> nat,
)
    ensures
        pair_sum(r, s1 + s2, w) == pair_sum(r, s1, w) + pair_sum(r, s2, w),
{
    let f = |y: Link| sum(s1 + s2, |z: Link| w(y, z));
    let f1 = |y: Link| sum(s1, |z: Link| w(y, z));
    let f2 = |y: Link| sum(s2, |z: Link| w(y, z));
    assert forall|i: int| 0 <= i < r.len() implies f(#[trigger] r[i]) == (|y: Link|
        f1(y) + f2(y))(r[i]) by {
        let y = r[i];
        lemma_sum_add(s1, s2, |z: Link| w(y, z));
    }
    lemma_sum_ext(r, f, |y: Link| f1(y) + f2(y));
    lemma_sum_plus(r, f1, f2);
}

proof fn lemma_pair_plus(
    r: Seq<Link>,
    s: Seq<Link>,
    w: spec_fn(Link, Link) -> nat,
    v: spec_fn(Link, Link) -> nat,
)
    ensures
        pair_sum(r, s, |y: Link, z: Link| w(y, z) + v(y, z)) == pair_sum(r, s, w) + pair_sum(
            r,
            s,
            v,
        ),
{
    let wv = |y: Link, z: Link| w(y, z) + v(y, z);
    let f = |y: Link| sum(s, |z: Link| wv(y, z));
    let f1 = |y: Link| sum(s, |z: Link| w(y, z));
    let f2 = |y: Link| sum(s, |z: Link| v(y, z));
    assert forall|i: int| 0 <= i < r.len() implies f(#[trigger] r[i]) == (|y: Link|
        f1(y) + f2(y))(r[i]) by {
        let y = r[i];
        let g1 = |z: Link| w(y, z);
        let g2 = |z: Link| v(y, z);
        lemma_sum_plus(s, g1, g2);
        lemma_sum_ext(s, |z: Link| wv(y, z), |z: Link| g1(z) + g2(z));
    }
    lemma_sum_ext(r, f, |y: Link| f1(y) + f2(y));
    lemma_sum_plus(r, f1, f2);
}

/// A constant weight over two rows is counted once per pair.
proof fn lemma_pair_constant(r: Seq<Link>, s: Seq<Link>, w: spec_fn(Link, Link) -> nat, c: nat)
    requires
        forall|i: int, j: int|
            0 <= i < r.len() && 0 <= j < s.len() ==> #[trigger] w(r[i], s[j]) == c,
    ensures
        pair_sum(r, s, w) == r.len() * s.len() * c,
{
    let f = |y: Link| sum(s, |z: Link| w(y, z));
    assert forall|i: int| 0 <= i < r.len() implies f(#[trigger] r[i]) == s.len() * c by {
        let y = r[i];
        assert forall|j: int| 0 <= j < s.len() implies (|z: Link| w(y, z))(#[trigger] s[j])
            == c by {
            assert(w(r[i], s[j]) == c);
        }
        lemma_sum_constant(s, |z: Link| w(y, z), c);
    }
    lemma_sum_constant(r, f, s.len() * c);
    assert(r.len() * (s.len() * c) == r.len() * s.len() * c) by (nonlinear_arith);
}

proof fn lemma_sum_constant<A>(s: Seq<A>, f: spec_fn(A) -> nat, c: nat)
    requires
        forall|i: int| 0 <= i < s.len() ==> f(#[trigger] s[i]) == c,
    ensures
        sum(s, f) == s.len() * c,
    decreases s.len(),
{
    if s.len() > 0 {
        let t = s.drop_last();
        assert forall|i: int| 0 <= i < t.len() implies f(#[trigger] t[i]) == c by {
            assert(t[i] == s[i]);
        }
        lemma_sum_constant(t, f, c);
        assert(s.last() == s[s.len() - 1]);
        assert(s.len() * c == t.len() * c + c) by (nonlinear_arith)
            requires
                s.len() == t.len() + 1,
        ;
    } else {
        assert(s.len() * c == 0) by (nonlinear_arith)
            requires
                s.len() == 0,
        ;
    }
}

/// Counts the pairs of links of two sorted rows that meet, by merging the rows.
fn merge_pairs(r: &[Link], s: &[Link], m2: &Option<Vec<bool>>, skip: Option<u32>) -> (c: u64)
    requires
        links_sorted(r@),
        links_sorted(s@),
        m2 matches Some(m) ==> forall|i: int| 0 <= i < r@.len() ==> (#[trigger] r@[i]).0 < m@.len(),
        pair_sum(r@, s@, meets(*m2, skip)) <= u64::MAX,
    ensures
        c == pair_sum(r@, s@, meets(*m2, skip)),
{
    let ghost w = meets(*m2, skip);
    let mut j: usize = 0;
    let mut k: usize = 0;
    let mut c: u64 = 0;
    assert(r@.skip(0) =~= r@);
    assert(s@.skip(0) =~= s@);
    while j < r.len() && k < s.len()
        invariant
            links_sorted(r@),
            links_sorted(s@),
            m2 matches Some(m) ==> forall|i: int|
                0 <= i < r@.len() ==> (#[trigger] r@[i]).0 < m@.len(),
            w == meets(*m2, skip),
            j <= r@.len(),
            k <= s@.len(),
            pair_sum(r@, s@, w) <= u64::MAX,
            c + pair_sum(r@.skip(j as int), s@.skip(k as int), w) == pair_sum(r@, s@, w),
        decreases r@.len() - j + s@.len() - k,
    {
        let c2: u32 = r[j].0;
        let c3: u32 = s[k].0;
        let ghost rest_r = r@.skip(j as int);
        let ghost rest_s = s@.skip(k as int);
        if c2 < c3 {
            proof {
                let head = seq![r@[j as int]];
                assert(rest_r =~= head + r@.skip(j + 1));
                lemma_pair_add_left(head, r@.skip(j + 1), rest_s, w);
                assert forall|a: int, b: int|
                    0 <= a < head.len() && 0 <= b < rest_s.len() implies #[trigger] w(
                    head[a],
                    rest_s[b],
                ) == 0 by {
                    assert(rest_s[b] == s@[k + b]);
                    assert(b == 0 || link_le(s@[k as int], s@[k + b]));
                }
                lemma_pair_zero(head, rest_s, w);
            }
            j = j + 1;
        } else if c2 > c3 {
            proof {
                let head = seq![s@[k as int]];
                assert(rest_s =~= head + s@.skip(k + 1));
                lemma_pair_add_right(rest_r, head, s@.skip(k + 1), w);
                assert forall|a: int, b: int|
                    0 <= a < rest_r.len() && 0 <= b < head.len() implies #[trigger] w(
                    rest_r[a],
                    head[b],
                ) == 0 by {
                    assert(rest_r[a] == r@[j + a]);
                    assert(a == 0 || link_le(r@[j as int], r@[j + a]));
                }
                lemma_pair_zero(rest_r, head, w);
            }
            k = k + 1;
        } else {
            let j0: usize = j;
            let k0: usize = k;
            while j < r.len() && r[j].0 == c2
                invariant
                    j0 <= j <= r@.len(),
                    forall|i: int| j0 <= i < j ==> (#[trigger] r@[i]).0 == c2,
                    j0 < r@.len(),
                    r@[j0 as int].0 == c2,
                ensures
                    j0 < j <= r@.len(),
                    forall|i: int| j0 <= i < j ==> (#[trigger] r@[i]).0 == c2,
                    j < r@.len() ==> r@[j as int].0 != c2,
                decreases r@.len() - j,
            {
                j = j + 1;
            }
            while k < s.len() && s[k].0 == c2
                invariant
                    k0 <= k <= s@.len(),
                    forall|i: int| k0 <= i < k ==> (#[trigger] s@[i]).0 == c2,
                    k0 < s@.len(),
                    s@[k0 as int].0 == c2,
                ensures
                    k0 < k <= s@.len(),
                    forall|i: int| k0 <= i < k ==> (#[trigger] s@[i]).0 == c2,
                    k < s@.len() ==> s@[k as int].0 != c2,
                decreases s@.len() - k,
            {
                k = k + 1;
            }
            let ghost run_r = r@.subrange(j0 as int, j as int);
            let ghost run_s = s@.subrange(k0 as int, k as int);
            let ghost tail_r = r@.skip(j as int);
            let ghost tail_s = s@.skip(k as int);
            let ghost unit = bit(mask_admits(*m2, c2 as int) && skip != Some(c2));
            proof {
                assert(rest_r =~= run_r + tail_r);
                assert(rest_s =~= run_s + tail_s);
                lemma_pair_add_left(run_r, tail_r, rest_s, w);
                lemma_pair_add_right(run_r, run_s, tail_s, w);
                lemma_pair_add_right(tail_r, run_s, tail_s, w);
                assert forall|a: int, b: int|
                    0 <= a < run_r.len() && 0 <= b < tail_s.len() implies #[trigger] w(
                    run_r[a],
                    tail_s[b],
                ) == 0 by {
                    assert(run_r[a] == r@[j0 + a]);
                    assert(tail_s[b] == s@[k + b]);
                    assert(link_le(s@[k0 as int], s@[k as int]));
                    assert(b == 0 || link_le(s@[k as int], s@[k + b]));
                }
                lemma_pair_zero(run_r, tail_s, w);
                assert forall|a: int, b: int|
                    0 <= a < tail_r.len() && 0 <= b < run_s.len() implies #[trigger] w(
                    tail_r[a],
                    run_s[b],
                ) == 0 by {
                    assert(run_s[b] == s@[k0 + b]);
                    assert(tail_r[a] == r@[j + a]);
                    assert(link_le(r@[j0 as int], r@[j as int]));
                    assert(a == 0 || link_le(r@[j as int], r@[j + a]));
                }
                lemma_pair_zero(tail_r, run_s, w);
                assert forall|a: int, b: int|
                    0 <= a < run_r.len() && 0 <= b < run_s.len() implies #[trigger] w(
                    run_r[a],
                    run_s[b],
                ) == unit by {
                    assert(run_r[a] == r@[j0 + a]);
                    assert(run_s[b] == s@[k0 + b]);
                }
                lemma_pair_constant(run_r, run_s, w, unit);
            }
            let skipped: bool = match skip {
                Some(v) => v == c2,
                None => false,
            };
            if admits(m2, c2 as usize) && !skipped {
                proof {
                    assert(run_r.len() * run_s.len() * unit == run_r.len() * run_s.len())
                        by (nonlinear_arith)
                        requires
                            unit == 1,
                    ;
                }
                let run: u64 = (j - j0) as u64 * (k - k0) as u64;
                c = c + run;
            } else {
                assert(run_r.len() * run_s.len() * unit == 0) by (nonlinear_arith)
                    requires
                        unit == 0,
                ;
            }
        }
    }
    proof {
        lemma_pair_zero(r@.skip(j as int), s@.skip(k as int), w);
    }
    c
}

/// The bounds of the run of `v` in a sorted row.
fn run_bounds(row: &[Link], v: u32) -> (b: (usize, usize))
    requires
        links_sorted(row@),
    ensures
        b.0 <= b.1 <= row@.len(),
        forall|i: int| 0 <= i < row@.len() ==> (b.0 <= i < b.1 <==> (#[trigger] row@[i]).0 == v),
{
    let mut lo: usize = 0;
    while lo < row.len() && row[lo].0 < v
        invariant
            lo <= row@.len(),
            forall|i: int| 0 <= i < lo ==> (#[trigger] row@[i]).0 < v,
        ensures
            lo <= row@.len(),
            forall|i: int| 0 <= i < lo ==> (#[trigger] row@[i]).0 < v,
            lo < row@.len() ==> row@[lo as int].0 >= v,
        decreases row@.len() - lo,
    {
        lo = lo + 1;
    }
    let mut hi: usize = lo;
    proof {
        assert forall|i: int| lo <= i < row@.len() implies (#[trigger] row@[i]).0 >= v by {
            assert(i == lo || link_le(row@[lo as int], row@[i]));
        }
    }
    while hi < row.len() && row[hi].0 == v
        invariant
            lo <= hi <= row@.len(),
            forall|i: int| lo <= i < hi ==> (#[trigger] row@[i]).0 == v,
            forall|i: int| lo <= i < row@.len() ==> (#[trigger] row@[i]).0 >= v,
        ensures
            lo <= hi <= row@.len(),
            forall|i: int| lo <= i < hi ==> (#[trigger] row@[i]).0 == v,
            hi < row@.len() ==> row@[hi as int].0 > v,
        decreases row@.len() - hi,
    {
        hi = hi + 1;
    }
    proof {
        assert forall|i: int| hi <= i < row@.len() implies (#[trigger] row@[i]).0 > v by {
            assert(i == hi || link_le(row@[hi as int], row@[i]));
        }
    }
    (lo, hi)
}

/// Terms outside a range do not add to a sum.
proof fn lemma_sum_range<A>(s: Seq<A>, lo: int, hi: int, f: spec_fn(A) -> nat)
    requires
        0 <= lo <= hi <= s.len(),
        forall|i: int| 0 <= i < s.len() && !(lo <= i < hi) ==> f(#[trigger] s[i]) == 0,
    ensures
        sum(s, f) == sum(s.subrange(lo, hi), f),
{
    let left = s.subrange(0, lo);
    let mid = s.subrange(lo, hi);
    let right = s.subrange(hi, s.len() as int);
    assert(s =~= left + mid + right);
    lemma_sum_add(left + mid, right, f);
    lemma_sum_add(left, mid, f);
    assert forall|i: int| 0 <= i < left.len() implies f(#[trigger] left[i]) == 0 by {
        assert(left[i] == s[i]);
    }
    lemma_sum_zero(left, f);
    assert forall|i: int| 0 <= i < right.len() implies f(#[trigger] right[i]) == 0 by {
        assert(right[i] == s[hi + i]);
    }
    lemma_sum_zero(right, f);
}

/// Counts the links of `s[lo..hi]` that are neither of two edges.
fn count_others(s: &[Link], lo: usize, hi: usize, e1: EdgeId, e2: EdgeId) -> (c: u64)
    requires
        lo <= hi <= s@.len(),
    ensures
        c == sum(s@.subrange(lo as int, hi as int), neither(e1, e2)),
{
    let ghost f = neither(e1, e2);
    let ghost part = s@.subrange(lo as int, hi as int);
    let mut k: usize = lo;
    let mut c: u64 = 0;
    assert(part.take(0) =~= Seq::empty());
    assert(s@.len() <= u64::MAX) by {
        assert(s.len() <= usize::MAX);
    }
    while k < hi
        invariant
            lo <= k <= hi <= s@.len(),
            s@.len() <= u64::MAX,
            f == neither(e1, e2),
            part == s@.subrange(lo as int, hi as int),
            c == sum(part.take(k - lo), f),
            c <= k - lo,
        decreases hi - k,
    {
        proof {
            lemma_sum_take(part, k - lo, f);
        }
        if s[k].1 != e1 && s[k].1 != e2 {
            c = c + 1;
        }
        k = k + 1;
    }
    assert(part.take(hi - lo) =~= part);
    c
}

/// Counts the ways to complete the self-loop `x` of `a` with two more self-loops.
fn count_loop_pairs(x: Link, r: &[Link], s: &[Link], a: u32, m2: &Option<Vec<bool>>) -> (c: u64)
    requires
        links_sorted(r@),
        links_sorted(s@),
        m2 matches Some(m) ==> a < m@.len(),
        pair_sum(r@, s@, loops_at(a, *m2, x)) <= u64::MAX,
    ensures
        c == pair_sum(r@, s@, loops_at(a, *m2, x)),
{
    let ghost w = loops_at(a, *m2, x);
    if !admits(m2, a as usize) {
        proof {
            lemma_pair_zero(r@, s@, w);
        }
        return 0;
    }
    let (j0, j1) = run_bounds(r, a);
    let (k0, k1) = run_bounds(s, a);
    let ghost f = |y: Link| sum(s@, |z: Link| w(y, z));
    let ghost part = r@.subrange(j0 as int, j1 as int);
    proof {
        assert forall|i: int| 0 <= i < r@.len() && !(j0 <= i < j1) implies f(#[trigger] r@[i])
            == 0 by {
            let y = r@[i];
            lemma_sum_zero(s@, |z: Link| w(y, z));
        }
        lemma_sum_range(r@, j0 as int, j1 as int, f);
    }
    let mut j: usize = j0;
    let mut c: u64 = 0;
    assert(part.take(0) =~= Seq::empty());
    while j < j1
        invariant
            w == loops_at(a, *m2, x),
            mask_admits(*m2, a as int),
            f == (|y: Link| sum(s@, |z: Link| w(y, z))),
            part == r@.subrange(j0 as int, j1 as int),
            j0 <= j <= j1 <= r@.len(),
            k0 <= k1 <= s@.len(),
            forall|i: int|
                0 <= i < r@.len() ==> (j0 <= i < j1 <==> (#[trigger] r@[i]).0 == a),
            forall|i: int|
                0 <= i < s@.len() ==> (k0 <= i < k1 <==> (#[trigger] s@[i]).0 == a),
            sum(part, f) <= u64::MAX,
            c == sum(part.take(j - j0), f),
        decreases j1 - j,
    {
        proof {
            lemma_sum_take(part, j - j0, f);
        }
        let y: Link = r[j];
        let ghost g = |z: Link| w(y, z);
        if y.1 != x.1 {
            let here: u64 = count_others(s, k0, k1, x.1, y.1);
            proof {
                lemma_sum_range(s@, k0 as int, k1 as int, g);
                let run = s@.subrange(k0 as int, k1 as int);
                let h = neither(x.1, y.1);
                assert forall|i: int| 0 <= i < run.len() implies g(#[trigger] run[i]) == h(
                    run[i],
                ) by {
                    assert(run[i] == s@[k0 + i]);
                }
                lemma_sum_ext(run, g, h);
            }
            c = c + here;
        } else {
            proof {
                lemma_sum_zero(s@, g);
            }
        }
        j = j + 1;
    }
    assert(part.take(j1 - j0) =~= part);
    c
}

/// The triangles whose first edge is link `x` of `a`, over the typed rows.
pub open spec fn over_links(
    m1: Option<Vec<bool>>,
    m2: Option<Vec<bool>>,
    out2: TypedSortedAdj,
    s: Seq<Link>,
    x: Link,
) -> nat {
    pair_sum(out2.links(x.0 as int), s, closes(m1, m2, x))
}

/// Every link of a typed row is an edge of the graph.
proof fn lemma_link_edge(
    edges: Seq<Edge>,
    p: spec_fn(Edge) -> bool,
    want: Option<TypeId>,
    link: spec_fn(Edge) -> Link,
    links: Seq<Link>,
    i: int,
) -> (k: int)
    requires
        links.to_multiset() == links_of(edges.filter(p), want, link).to_multiset(),
        0 <= i < links.len(),
    ensures
        0 <= k < edges.len(),
        p(edges[k]),
        link(edges[k]) == links[i],
{
    let row = edges.filter(p);
    let kept = row.filter(of_type(want));
    let all = links_of(row, want, link);
    vstd::seq_lib::to_multiset_contains(links, links[i]);
    vstd::seq_lib::to_multiset_contains(all, links[i]);
    assert(links.contains(links[i]));
    assert(all.contains(links[i]));
    let j = choose|j: int| 0 <= j < all.len() && all[j] == links[i];
    assert(kept.contains(kept[j]));
    row.lemma_filter_contains_rev(of_type(want), kept[j]);
    let q = choose|q: int| 0 <= q < row.len() && row[q] == kept[j];
    edges.lemma_filter_pred(p, q);
    edges.lemma_filter_contains_rev(p, row[q]);
    choose|k: int| 0 <= k < edges.len() && edges[k] == row[q]
}

/// Away from triple self-loops the three edges of a triangle are distinct by themselves.
proof fn lemma_closes_split(
    snap: CsrSnapshot,
    t1: Option<TypeId>,
    t2: Option<TypeId>,
    t3: Option<TypeId>,
    m1: Option<Vec<bool>>,
    m2: Option<Vec<bool>>,
    a: int,
    b: int,
    o: Seq<Link>,
    r: Seq<Link>,
    s: Seq<Link>,
    i: int,
)
    requires
        snap.wf(),
        0 <= a < snap.n(),
        0 <= b < snap.n(),
        o.to_multiset() == links_of(snap.out_row(a), t1, forward_link()).to_multiset(),
        r.to_multiset() == links_of(snap.out_row(b), t2, forward_link()).to_multiset(),
        s.to_multiset() == links_of(snap.in_row(a), t3, backward_link()).to_multiset(),
        0 <= i < o.len(),
        o[i].0 == b,
        mask_admits(m1, b),
    ensures
        ({
            let x = o[i];
            let skip = if a == b {
                Some(a as u32)
            } else {
                None
            };
            pair_sum(r, s, closes(m1, m2, x)) == pair_sum(r, s, meets(m2, skip)) + (if a == b {
                pair_sum(r, s, loops_at(a as u32, m2, x))
            } else {
                0
            })
        }),
{
    let edges = snap.edges@;
    let x = o[i];
    let au = a as u32;
    let skip = if a == b {
        Some(au)
    } else {
        None
    };
    let w = closes(m1, m2, x);
    let v1 = meets(m2, skip);
    let v2 = loops_at(au, m2, x);
    let kx = lemma_link_edge(edges, leaving(a), t1, forward_link(), o, i);
    assert forall|p: int, q: int| 0 <= p < r.len() && 0 <= q < s.len() implies #[trigger] w(
        r[p],
        s[q],
    ) == v1(r[p], s[q]) + (if a == b {
        v2(r[p], s[q])
    } else {
        0
    }) by {
        let y = r[p];
        let z = s[q];
        let ky = lemma_link_edge(edges, leaving(b), t2, forward_link(), r, p);
        let kz = lemma_link_edge(edges, entering(a), t3, backward_link(), s, q);
        assert(edges[kx].src == a && edges[kx].dst as u32 == b && edges[kx].id == x.1);
        assert(edges[ky].src == b && edges[ky].dst as u32 == y.0 && edges[ky].id == y.1);
        assert(edges[kz].src as u32 == z.0 && edges[kz].dst == a && edges[kz].id == z.1);
        assert(x.1 == y.1 ==> kx == ky);
        assert(y.1 == z.1 ==> ky == kz);
        assert(x.1 == z.1 ==> kx == kz);
    }
    if a == b {
        lemma_pair_plus(r, s, v1, v2);
        lemma_pair_ext(r, s, w, |y: Link, z: Link| v1(y, z) + v2(y, z));
    } else {
        lemma_pair_ext(r, s, w, v1);
    }
}

/// The triangles through a run of parallel first edges.
fn count_run(
    snap: &CsrSnapshot,
    t1: Option<TypeId>,
    t2: Option<TypeId>,
    t3: Option<TypeId>,
    m1: &Option<Vec<bool>>,
    m2: &Option<Vec<bool>>,
    a: usize,
    b: usize,
    o: &[Link],
    i0: usize,
    i1: usize,
    r: &[Link],
    s: &[Link],
    weigh: Ghost<spec_fn(Link) -> nat>,
) -> (c: u64)
    requires
        snap.wf(),
        a < snap.n(),
        b < snap.n(),
        o@.to_multiset() == links_of(snap.out_row(a as int), t1, forward_link()).to_multiset(),
        r@.to_multiset() == links_of(snap.out_row(b as int), t2, forward_link()).to_multiset(),
        s@.to_multiset() == links_of(snap.in_row(a as int), t3, backward_link()).to_multiset(),
        links_sorted(r@),
        links_sorted(s@),
        i0 < i1 <= o@.len(),
        forall|i: int| i0 <= i < i1 ==> (#[trigger] o@[i]).0 == b,
        mask_covers(*m1, snap.n()),
        mask_covers(*m2, snap.n()),
        mask_admits(*m1, b as int),
        forall|x: Link| #[trigger] weigh@(x) == pair_sum(r@, s@, closes(*m1, *m2, x)) || x.0 != b,
        sum(o@.subrange(i0 as int, i1 as int), weigh@) <= u64::MAX,
    ensures
        c == sum(o@.subrange(i0 as int, i1 as int), weigh@),
{
    let ghost run = o@.subrange(i0 as int, i1 as int);
    let ghost ru = r@;
    let ghost su = s@;
    let skip: Option<u32> = if a == b {
        Some(a as u32)
    } else {
        None
    };
    let ghost pairs = pair_sum(ru, su, meets(*m2, skip));
    let ghost alone = |x: Link| pairs;
    let ghost looped = |x: Link|
        if a == b {
            pair_sum(ru, su, loops_at(a as u32, *m2, x))
        } else {
            0
        };
    proof {
        assert forall|i: int| 0 <= i < run.len() implies weigh@(#[trigger] run[i]) == (|x: Link|
            alone(x) + looped(x))(run[i]) by {
            assert(run[i] == o@[i0 + i]);
            lemma_closes_split(
                *snap,
                t1,
                t2,
                t3,
                *m1,
                *m2,
                a as int,
                b as int,
                o@,
                ru,
                su,
                i0 + i,
            );
        }
        lemma_sum_ext(run, weigh@, |x: Link| alone(x) + looped(x));
        lemma_sum_plus(run, alone, looped);
        lemma_sum_constant(run, alone, pairs);
        assert(run.len() * pairs >= pairs) by (nonlinear_arith)
            requires
                run.len() >= 1,
        ;
        assert forall|i: int| 0 <= i < ru.len() implies (#[trigger] ru[i]).0 < snap.n() by {
            let k = lemma_link_edge(
                snap.edges@,
                leaving(b as int),
                t2,
                forward_link(),
                ru,
                i,
            );
            assert(snap.edges@[k].dst < snap.n());
        }
    }
    let pair_count: u64 = merge_pairs(r, s, m2, skip);
    let width: u64 = (i1 - i0) as u64;
    let mut total: u64 = width * pair_count;
    if a == b {
        let mut i: usize = i0;
        assert(run.take(0) =~= Seq::empty());
        while i < i1
            invariant
                i0 <= i <= i1 <= o@.len(),
                run == o@.subrange(i0 as int, i1 as int),
                ru == r@,
                su == s@,
                a == b,
                a < snap.n(),
                snap.n() < u32::MAX,
                mask_covers(*m2, snap.n()),
                links_sorted(r@),
                links_sorted(s@),
                looped == (|x: Link|
                    if a == b {
                        pair_sum(ru, su, loops_at(a as u32, *m2, x))
                    } else {
                        0
                    }),
                run.len() * pairs + sum(run, looped) <= u64::MAX,
                total == run.len() * pairs + sum(run.take(i - i0), looped),
            decreases i1 - i,
        {
            proof {
                lemma_sum_take(run, i - i0, looped);
            }
            let here: u64 = count_loop_pairs(o[i], r, s, a as u32, m2);
            total = total + here;
            i = i + 1;
        }
        assert(run.take(i1 - i0) =~= run);
    } else {
        proof {
            lemma_sum_zero(run, looped);
        }
    }
    total
}

/// The triangles whose first edge leaves `a`.
fn count_from(
    snap: &CsrSnapshot,
    t1: Option<TypeId>,
    t2: Option<TypeId>,
    t3: Option<TypeId>,
    m1: &Option<Vec<bool>>,
    m2: &Option<Vec<bool>>,
    out2: &TypedSortedAdj,
    a: usize,
    o: &[Link],
    s: &[Link],
) -> (total: u64)
    requires
        snap.wf(),
        a < snap.n(),
        out2.wf(snap.n() as int),
        forall|d: int|
            0 <= d < snap.n() ==> links_sorted(#[trigger] out2.links(d)) && out2.links(
                d,
            ).to_multiset() == links_of(snap.out_row(d), t2, forward_link()).to_multiset(),
        links_sorted(o@),
        links_sorted(s@),
        o@.to_multiset() == links_of(snap.out_row(a as int), t1, forward_link()).to_multiset(),
        s@.to_multiset() == links_of(snap.in_row(a as int), t3, backward_link()).to_multiset(),
        mask_covers(*m1, snap.n()),
        mask_covers(*m2, snap.n()),
        sum(o@, |x: Link| over_links(*m1, *m2, *out2, s@, x)) <= u64::MAX,
    ensures
        total == sum(o@, |x: Link| over_links(*m1, *m2, *out2, s@, x)),
{
    let ghost f = |x: Link| over_links(*m1, *m2, *out2, s@, x);
    let mut total: u64 = 0;
    let mut i: usize = 0;
    assert(o@.take(0) =~= Seq::empty());
    while i < o.len()
        invariant
            snap.wf(),
            a < snap.n(),
            out2.wf(snap.n() as int),
            forall|d: int|
                0 <= d < snap.n() ==> links_sorted(#[trigger] out2.links(d)) && out2.links(
                    d,
                ).to_multiset() == links_of(snap.out_row(d), t2, forward_link()).to_multiset(),
            links_sorted(o@),
            links_sorted(s@),
            o@.to_multiset() == links_of(snap.out_row(a as int), t1, forward_link()).to_multiset(),
            s@.to_multiset() == links_of(snap.in_row(a as int), t3, backward_link()).to_multiset(),
            mask_covers(*m1, snap.n()),
            mask_covers(*m2, snap.n()),
            f == (|x: Link| over_links(*m1, *m2, *out2, s@, x)),
            i <= o@.len(),
            sum(o@, f) <= u64::MAX,
            total == sum(o@.take(i as int), f),
        decreases o@.len() - i,
    {
        let b: usize = o[i].0 as usize;
        let i0: usize = i;
        while i < o.len() && o[i].0 as usize == b
            invariant
                i0 <= i <= o@.len(),
                i0 < o@.len(),
                o@[i0 as int].0 == b,
                forall|q: int| i0 <= q < i ==> (#[trigger] o@[q]).0 == b,
            ensures
                i0 < i <= o@.len(),
                forall|q: int| i0 <= q < i ==> (#[trigger] o@[q]).0 == b,
            decreases o@.len() - i,
        {
            i = i + 1;
        }
        let ghost run = o@.subrange(i0 as int, i as int);
        proof {
            let k = lemma_link_edge(
                snap.edges@,
                leaving(a as int),
                t1,
                forward_link(),
                o@,
                i0 as int,
            );
            assert(snap.edges@[k].dst < snap.n());
            assert(o@.take(i as int) =~= o@.take(i0 as int) + run);
            lemma_sum_add(o@.take(i0 as int), run, f);
            lemma_sum_prefix(o@, i as int, f);
        }
        if admits(m1, b) {
            let r: &[Link] = out2.row(b);
            let here: u64 = count_run(
                snap,
                t1,
                t2,
                t3,
                m1,
                m2,
                a,
                b,
                o,
                i0,
                i,
                r,
                s,
                Ghost(f),
            );
            total = total + here;
        } else {
            proof {
                assert forall|q: int| 0 <= q < run.len() implies f(#[trigger] run[q]) == 0 by {
                    assert(run[q] == o@[i0 + q]);
                    lemma_pair_zero(
                        out2.links(run[q].0 as int),
                        s@,
                        closes(*m1, *m2, run[q]),
                    );
                }
                lemma_sum_zero(run, f);
            }
        }
    }
    assert(o@.take(o@.len() as int) =~= o@);
    total
}

/// The triangles whose first edge leaves `a` are those over the typed rows of `a`.
proof fn lemma_from_node(
    snap: CsrSnapshot,
    t1: Option<TypeId>,
    t2: Option<TypeId>,
    t3: Option<TypeId>,
    m0: Option<Vec<bool>>,
    m1: Option<Vec<bool>>,
    m2: Option<Vec<bool>>,
    out2: TypedSortedAdj,
    a: int,
    o: Seq<Link>,
    s: Seq<Link>,
)
    requires
        snap.wf(),
        0 <= a < snap.n(),
        forall|d: int|
            0 <= d < snap.n() ==> (#[trigger] out2.links(d)).to_multiset() == links_of(
                snap.out_row(d),
                t2,
                forward_link(),
            ).to_multiset(),
        o.to_multiset() == links_of(snap.out_row(a), t1, forward_link()).to_multiset(),
        s.to_multiset() == links_of(snap.in_row(a), t3, backward_link()).to_multiset(),
    ensures
        sum(
            snap.edges@.filter(leaving(a)),
            |e1: Edge|
                from_first(snap.edges@, hop(t1, m0, m1), hop(t2, m1, m2), hop(t3, m2, m0), e1),
        ) == if mask_admits(m0, a) {
            sum(o, |x: Link| over_links(m1, m2, out2, s, x))
        } else {
            0
        },
{
    let edges = snap.edges@;
    let h1 = hop(t1, m0, m1);
    let h2 = hop(t2, m1, m2);
    let h3 = hop(t3, m2, m0);
    let f = |e1: Edge| from_first(edges, h1, h2, h3, e1);
    let g = |x: Link| over_links(m1, m2, out2, s, x);
    let row = edges.filter(leaving(a));
    assert(row == snap.out_row(a));
    if !mask_admits(m0, a) {
        assert forall|i: int| 0 <= i < row.len() implies f(#[trigger] row[i]) == 0 by {
            edges.lemma_filter_pred(leaving(a), i);
            let e1 = row[i];
            let inner = |e2: Edge| count(edges, |e3: Edge| triangle(h1, h2, h3, e1, e2, e3));
            assert forall|j: int| 0 <= j < edges.len() implies inner(#[trigger] edges[j])
                == 0 by {
                let e2 = edges[j];
                let p = |e3: Edge| triangle(h1, h2, h3, e1, e2, e3);
                lemma_sum_zero(edges, |e3: Edge| bit(p(e3)));
            }
            lemma_sum_zero(edges, inner);
        }
        lemma_sum_zero(row, f);
    } else {
        lemma_links_sum(o, row, t1, forward_link(), g);
        let weighed = |e: Edge|
            if of_type(t1)(e) {
                g(forward_link()(e))
            } else {
                0
            };
        assert forall|i: int| 0 <= i < row.len() implies f(#[trigger] row[i]) == weighed(
            row[i],
        ) by {
            edges.lemma_filter_pred(leaving(a), i);
            assert(row.contains(row[i]));
            edges.lemma_filter_contains_rev(leaving(a), row[i]);
            let k = choose|k: int| 0 <= k < edges.len() && edges[k] == row[i];
            lemma_from_edge(snap, t1, t2, t3, m0, m1, m2, out2, a, s, k);
        }
        lemma_sum_ext(row, f, weighed);
    }
}

/// The triangles that start with one edge, over the typed rows.
proof fn lemma_from_edge(
    snap: CsrSnapshot,
    t1: Option<TypeId>,
    t2: Option<TypeId>,
    t3: Option<TypeId>,
    m0: Option<Vec<bool>>,
    m1: Option<Vec<bool>>,
    m2: Option<Vec<bool>>,
    out2: TypedSortedAdj,
    a: int,
    s: Seq<Link>,
    k: int,
)
    requires
        snap.wf(),
        0 <= a < snap.n(),
        forall|d: int|
            0 <= d < snap.n() ==> (#[trigger] out2.links(d)).to_multiset() == links_of(
                snap.out_row(d),
                t2,
                forward_link(),
            ).to_multiset(),
        s.to_multiset() == links_of(snap.in_row(a), t3, backward_link()).to_multiset(),
        0 <= k < snap.edges@.len(),
        snap.edges@[k].src == a,
        mask_admits(m0, a),
    ensures
        ({
            let e1 = snap.edges@[k];
            from_first(snap.edges@, hop(t1, m0, m1), hop(t2, m1, m2), hop(t3, m2, m0), e1) == if (
            type_admits(t1, e1.ty)) {
                over_links(m1, m2, out2, s, forward_link()(e1))
            } else {
                0
            }
        }),
{
    let edges = snap.edges@;
    let e1 = edges[k];
    let b = e1.dst;
    let h1 = hop(t1, m0, m1);
    let h2 = hop(t2, m1, m2);
    let h3 = hop(t3, m2, m0);
    let x = forward_link()(e1);
    let r = out2.links(b);
    let w = closes(m1, m2, x);
    let inner = |e2: Edge| count(edges, |e3: Edge| triangle(h1, h2, h3, e1, e2, e3));
    if !type_admits(t1, e1.ty) {
        assert forall|j: int| 0 <= j < edges.len() implies inner(#[trigger] edges[j]) == 0 by {
            let e2 = edges[j];
            let p = |e3: Edge| triangle(h1, h2, h3, e1, e2, e3);
            lemma_sum_zero(edges, |e3: Edge| bit(p(e3)));
        }
        lemma_sum_zero(edges, inner);
    } else {
        let outer = |y: Link| sum(s, |z: Link| w(y, z));
        lemma_links_sum(r, snap.out_row(b), t2, forward_link(), outer);
        let weighed = |e: Edge|
            if of_type(t2)(e) {
                outer(forward_link()(e))
            } else {
                0
            };
        lemma_sum_filter(edges, leaving(b), weighed);
        let kept = |e: Edge|
            if leaving(b)(e) {
                weighed(e)
            } else {
                0
            };
        assert forall|j: int| 0 <= j < edges.len() implies inner(#[trigger] edges[j]) == kept(
            edges[j],
        ) by {
            lemma_from_pair(snap, t1, t2, t3, m0, m1, m2, a, s, k, j);
        }
        lemma_sum_ext(edges, inner, kept);
        assert(x.0 as int == b);
    }
}

/// The triangles that start with two given edges, over the typed row of hop three.
proof fn lemma_from_pair(
    snap: CsrSnapshot,
    t1: Option<TypeId>,
    t2: Option<TypeId>,
    t3: Option<TypeId>,
    m0: Option<Vec<bool>>,
    m1: Option<Vec<bool>>,
    m2: Option<Vec<bool>>,
    a: int,
    s: Seq<Link>,
    k: int,
    j: int,
)
    requires
        snap.wf(),
        0 <= a < snap.n(),
        s.to_multiset() == links_of(snap.in_row(a), t3, backward_link()).to_multiset(),
        0 <= k < snap.edges@.len(),
        0 <= j < snap.edges@.len(),
        snap.edges@[k].src == a,
        mask_admits(m0, a),
        type_admits(t1, snap.edges@[k].ty),
    ensures
        ({
            let e1 = snap.edges@[k];
            let e2 = snap.edges@[j];
            let h1 = hop(t1, m0, m1);
            let h2 = hop(t2, m1, m2);
            let h3 = hop(t3, m2, m0);
            let w = closes(m1, m2, forward_link()(e1));
            count(snap.edges@, |e3: Edge| triangle(h1, h2, h3, e1, e2, e3)) == if leaving(e1.dst)(
                e2,
            ) && of_type(t2)(e2) {
                sum(s, |z: Link| w(forward_link()(e2), z))
            } else {
                0
            }
        }),
{
    let edges = snap.edges@;
    let e1 = edges[k];
    let e2 = edges[j];
    let h1 = hop(t1, m0, m1);
    let h2 = hop(t2, m1, m2);
    let h3 = hop(t3, m2, m0);
    let w = closes(m1, m2, forward_link()(e1));
    let p = |e3: Edge| triangle(h1, h2, h3, e1, e2, e3);
    let q = |e3: Edge| bit(p(e3));
    if !(leaving(e1.dst)(e2) && of_type(t2)(e2)) {
        lemma_sum_zero(edges, q);
    } else {
        let y = forward_link()(e2);
        let g = |z: Link| w(y, z);
        lemma_links_sum(s, snap.in_row(a), t3, backward_link(), g);
        let weighed = |e: Edge|
            if of_type(t3)(e) {
                g(backward_link()(e))
            } else {
                0
            };
        lemma_sum_filter(edges, entering(a), weighed);
        let kept = |e: Edge|
            if entering(a)(e) {
                weighed(e)
            } else {
                0
            };
        assert forall|i: int| 0 <= i < edges.len() implies q(#[trigger] edges[i]) == kept(
            edges[i],
        ) by {
            let e3 = edges[i];
            assert(0 <= e3.src < snap.n());
            assert(0 <= e2.dst < snap.n());
            assert(0 <= e1.dst < snap.n());
            assert((e2.dst as u32 == e3.src as u32) == (e2.dst == e3.src));
        }
        lemma_sum_ext(edges, q, kept);
    }
}

/// Counts the directed triangles `(a)-[t1]->(b)-[t2]->(c)-[t3]->(a)` with `a`,
/// `b` and `c` admitted by their masks.
pub fn count_triangles(
    snap: &CsrSnapshot,
    types: [Option<TypeId>; 3],
    m0: &Option<Vec<bool>>,
    m1: &Option<Vec<bool>>,
    m2: &Option<Vec<bool>>,
) -> (total: u64)
    requires
        snap.wf(),
        mask_covers(*m0, snap.n()),
        mask_covers(*m1, snap.n()),
        mask_covers(*m2, snap.n()),
        triangle_total(
            snap.edges@,
            hop(types@[0], *m0, *m1),
            hop(types@[1], *m1, *m2),
            hop(types@[2], *m2, *m0),
        ) <= u64::MAX,
    ensures
        total == triangle_total(
            snap.edges@,
            hop(types@[0], *m0, *m1),
            hop(types@[1], *m1, *m2),
            hop(types@[2], *m2, *m0),
        ),
{
    let t1: Option<TypeId> = types[0];
    let t2: Option<TypeId> = types[1];
    let t3: Option<TypeId> = types[2];
    let ghost edges = snap.edges@;
    let ghost h1 = hop(t1, *m0, *m1);
    let ghost h2 = hop(t2, *m1, *m2);
    let ghost h3 = hop(t3, *m2, *m0);
    let ghost f = |e1: Edge| from_first(edges, h1, h2, h3, e1);
    let ghost part = |a: int| sum(edges.filter(of_class(source(), a)), f);
    let n: usize = snap.dense_to_id.len();
    proof {
        lemma_sum_classes(edges, n as nat, source(), f);
    }
    let out1: TypedSortedAdj = typed_out_sorted(snap, t1);
    let out2: TypedSortedAdj = typed_out_sorted(snap, t2);
    let in3: TypedSortedAdj = typed_in_sorted(snap, t3);
    let mut total: u64 = 0;
    let mut a: usize = 0;
    assert(upto(n as nat).take(0) =~= Seq::empty());
    while a < n
        invariant
            snap.wf(),
            n == snap.n(),
            mask_covers(*m0, snap.n()),
            mask_covers(*m1, snap.n()),
            mask_covers(*m2, snap.n()),
            edges == snap.edges@,
            h1 == hop(t1, *m0, *m1),
            h2 == hop(t2, *m1, *m2),
            h3 == hop(t3, *m2, *m0),
            f == (|e1: Edge| from_first(edges, h1, h2, h3, e1)),
            part == (|a: int| sum(edges.filter(of_class(source(), a)), f)),
            out1.wf(n as int),
            out2.wf(n as int),
            in3.wf(n as int),
            forall|d: int|
                0 <= d < snap.n() ==> links_sorted(#[trigger] out1.links(d)) && out1.links(
                    d,
                ).to_multiset() == links_of(snap.out_row(d), t1, forward_link()).to_multiset(),
            forall|d: int|
                0 <= d < snap.n() ==> links_sorted(#[trigger] out2.links(d)) && out2.links(
                    d,
                ).to_multiset() == links_of(snap.out_row(d), t2, forward_link()).to_multiset(),
            forall|d: int|
                0 <= d < snap.n() ==> links_sorted(#[trigger] in3.links(d)) && in3.links(
                    d,
                ).to_multiset() == links_of(snap.in_row(d), t3, backward_link()).to_multiset(),
            a <= n,
            sum(upto(n as nat), part) <= u64::MAX,
            total == sum(upto(n as nat).take(a as int), part),
        decreases n - a,
    {
        proof {
            lemma_sum_take(upto(n as nat), a as int, part);
            lemma_from_node(
                *snap,
                t1,
                t2,
                t3,
                *m0,
                *m1,
                *m2,
                out2,
                a as int,
                out1.links(a as int),
                in3.links(a as int),
            );
            assert(part(a as int) == sum(edges.filter(leaving(a as int)), f));
        }
        if admits(m0, a) {
            let o: &[Link] = out1.row(a);
            let s: &[Link] = in3.row(a);
            let here: u64 = count_from(snap, t1, t2, t3, m1, m2, &out2, a, o, s);
            total = total + here;
        }
        a = a + 1;
    }
    assert(upto(n as nat).take(n as int) =~= upto(n as nat));
    total
}

} // verus!
