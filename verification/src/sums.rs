//! Finite sums over sequences, the vocabulary of the counting contracts.

use vstd::prelude::*;

verus! {

/// The sum of `f` over the items of `s`.
pub open spec fn sum<A>(s: Seq<A>, f: spec_fn(A) -> nat) -> nat
    decreases s.len(),
{
    if s.len() == 0 {
        0
    } else {
        sum(s.drop_last(), f) + f(s.last())
    }
}

/// The number of items of `s` that satisfy `p`.
pub open spec fn count<A>(s: Seq<A>, p: spec_fn(A) -> bool) -> nat {
    sum(s, |a: A| bit(p(a)))
}

/// One for true, zero for false.
pub open spec fn bit(b: bool) -> nat {
    if b {
        1
    } else {
        0
    }
}

/// The integers `0..n` in ascending order.
pub open spec fn upto(n: nat) -> Seq<int> {
    Seq::new(n, |i: int| i)
}

pub proof fn lemma_sum_push<A>(s: Seq<A>, a: A, f: spec_fn(A) -> nat)
    ensures
        sum(s.push(a), f) == sum(s, f) + f(a),
{
    assert(s.push(a).drop_last() =~= s);
}

pub proof fn lemma_sum_ext<A>(s: Seq<A>, f: spec_fn(A) -> nat, g: spec_fn(A) -> nat)
    requires
        forall|i: int| 0 <= i < s.len() ==> f(#[trigger] s[i]) == g(s[i]),
    ensures
        sum(s, f) == sum(s, g),
    decreases s.len(),
{
    if s.len() > 0 {
        assert forall|i: int| 0 <= i < s.drop_last().len() implies f(#[trigger] s.drop_last()[i])
            == g(s.drop_last()[i]) by {
            assert(s.drop_last()[i] == s[i]);
        }
        lemma_sum_ext(s.drop_last(), f, g);
        assert(s.last() == s[s.len() - 1]);
    }
}

pub proof fn lemma_sum_le<A>(s: Seq<A>, f: spec_fn(A) -> nat, g: spec_fn(A) -> nat)
    requires
        forall|i: int| 0 <= i < s.len() ==> f(#[trigger] s[i]) <= g(s[i]),
    ensures
        sum(s, f) <= sum(s, g),
    decreases s.len(),
{
    if s.len() > 0 {
        assert forall|i: int| 0 <= i < s.drop_last().len() implies f(#[trigger] s.drop_last()[i])
            <= g(s.drop_last()[i]) by {
            assert(s.drop_last()[i] == s[i]);
        }
        lemma_sum_le(s.drop_last(), f, g);
        assert(s.last() == s[s.len() - 1]);
    }
}

pub proof fn lemma_sum_zero<A>(s: Seq<A>, f: spec_fn(A) -> nat)
    requires
        forall|i: int| 0 <= i < s.len() ==> f(#[trigger] s[i]) == 0,
    ensures
        sum(s, f) == 0,
    decreases s.len(),
{
    if s.len() > 0 {
        assert forall|i: int| 0 <= i < s.drop_last().len() implies f(#[trigger] s.drop_last()[i])
            == 0 by {
            assert(s.drop_last()[i] == s[i]);
        }
        lemma_sum_zero(s.drop_last(), f);
        assert(s.last() == s[s.len() - 1]);
    }
}

/// A sum over a concatenation splits in two.
pub proof fn lemma_sum_add<A>(s: Seq<A>, t: Seq<A>, f: spec_fn(A) -> nat)
    ensures
        sum(s + t, f) == sum(s, f) + sum(t, f),
    decreases t.len(),
{
    if t.len() == 0 {
        assert(s + t =~= s);
    } else {
        assert((s + t).drop_last() =~= s + t.drop_last());
        lemma_sum_add(s, t.drop_last(), f);
    }
}

/// A sum of pointwise sums is the sum of the two sums.
pub proof fn lemma_sum_plus<A>(s: Seq<A>, f: spec_fn(A) -> nat, g: spec_fn(A) -> nat)
    ensures
        sum(s, |a: A| f(a) + g(a)) == sum(s, f) + sum(s, g),
    decreases s.len(),
{
    if s.len() > 0 {
        lemma_sum_plus(s.drop_last(), f, g);
    }
}

/// A constant factor moves out of a sum.
pub proof fn lemma_sum_scale<A>(s: Seq<A>, c: nat, f: spec_fn(A) -> nat)
    ensures
        sum(s, |a: A| c * f(a)) == c * sum(s, f),
    decreases s.len(),
{
    let g = |a: A| c * f(a);
    if s.len() > 0 {
        lemma_sum_scale(s.drop_last(), c, f);
        let x = sum(s.drop_last(), f);
        let y = f(s.last());
        assert(c * (x + y) == c * x + c * y) by (nonlinear_arith);
    } else {
        assert(c * sum(s, f) == 0) by (nonlinear_arith)
            requires
                sum(s, f) == 0,
        ;
    }
}

/// Summing over the items that pass a filter weighs the others with zero.
pub proof fn lemma_sum_filter<A>(s: Seq<A>, p: spec_fn(A) -> bool, f: spec_fn(A) -> nat)
    ensures
        sum(s.filter(p), f) == sum(
            s,
            |a: A|
                if p(a) {
                    f(a)
                } else {
                    0
                },
        ),
    decreases s.len(),
{
    reveal(Seq::filter);
    if s.len() > 0 {
        lemma_sum_filter(s.drop_last(), p, f);
        if p(s.last()) {
            lemma_sum_push(s.drop_last().filter(p), s.last(), f);
        }
    }
}

/// The order of two nested sums does not matter.
pub proof fn lemma_sum_swap<A, B>(s: Seq<A>, t: Seq<B>, f: spec_fn(A, B) -> nat)
    ensures
        sum(s, |a: A| sum(t, |b: B| f(a, b))) == sum(t, |b: B| sum(s, |a: A| f(a, b))),
    decreases s.len(),
{
    let outer = |a: A| sum(t, |b: B| f(a, b));
    let inner = |b: B| sum(s, |a: A| f(a, b));
    if s.len() == 0 {
        lemma_sum_zero(t, inner);
    } else {
        let s0 = s.drop_last();
        let inner0 = |b: B| sum(s0, |a: A| f(a, b));
        let last = |b: B| f(s.last(), b);
        lemma_sum_swap(s0, t, f);
        lemma_sum_plus(t, inner0, last);
        let both = |b: B| inner0(b) + last(b);
        assert forall|i: int| 0 <= i < t.len() implies inner(#[trigger] t[i]) == both(t[i]) by {}
        lemma_sum_ext(t, inner, both);
    }
}

/// The product of two sums is the double sum of the products.
pub proof fn lemma_sum_product<A, B>(
    s: Seq<A>,
    t: Seq<B>,
    f: spec_fn(A) -> nat,
    g: spec_fn(B) -> nat,
)
    ensures
        sum(s, f) * sum(t, g) == sum(s, |a: A| sum(t, |b: B| f(a) * g(b))),
    decreases s.len(),
{
    let h = |a: A| sum(t, |b: B| f(a) * g(b));
    if s.len() == 0 {
        assert(sum(s, f) * sum(t, g) == 0) by (nonlinear_arith)
            requires
                sum(s, f) == 0,
        ;
    } else {
        lemma_sum_product(s.drop_last(), t, f, g);
        lemma_sum_scale(t, f(s.last()), g);
        let x = sum(s.drop_last(), f);
        let y = f(s.last());
        let z = sum(t, g);
        assert((x + y) * z == x * z + y * z) by (nonlinear_arith);
    }
}

/// A sum depends on the items only, not on their order.
pub proof fn lemma_sum_multiset<A>(s: Seq<A>, t: Seq<A>, f: spec_fn(A) -> nat)
    requires
        s.to_multiset() == t.to_multiset(),
    ensures
        sum(s, f) == sum(t, f),
    decreases s.len(),
{
    broadcast use vstd::seq_lib::group_to_multiset_ensures;

    s.to_multiset_ensures();
    t.to_multiset_ensures();
    if s.len() == 0 {
        assert(t.len() == 0);
    } else {
        let a = s.last();
        assert(s.to_multiset().contains(a)) by {
            assert(s.contains(s[s.len() - 1]));
        }
        assert(t.contains(a));
        let j = t.index_of(a);
        let t1 = t.remove(j);
        assert(s.remove(s.len() - 1) =~= s.drop_last());
        lemma_sum_multiset(s.drop_last(), t1, f);
        let left = t.subrange(0, j);
        let right = t.subrange(j + 1, t.len() as int);
        assert(t1 =~= left + right);
        assert(t =~= left.push(a) + right);
        lemma_sum_add(left, right, f);
        lemma_sum_add(left.push(a), right, f);
        lemma_sum_push(left, a, f);
    }
}

/// A partial sum never exceeds the whole.
pub proof fn lemma_sum_prefix<A>(s: Seq<A>, k: int, f: spec_fn(A) -> nat)
    requires
        0 <= k <= s.len(),
    ensures
        sum(s.take(k), f) <= sum(s, f),
{
    assert(s =~= s.take(k) + s.skip(k));
    lemma_sum_add(s.take(k), s.skip(k), f);
}

/// One step of a running sum.
pub proof fn lemma_sum_take<A>(s: Seq<A>, k: int, f: spec_fn(A) -> nat)
    requires
        0 <= k < s.len(),
    ensures
        sum(s.take(k + 1), f) == sum(s.take(k), f) + f(s[k]),
        sum(s.take(k + 1), f) <= sum(s, f),
{
    assert(s.take(k + 1) =~= s.take(k).push(s[k]));
    lemma_sum_push(s.take(k), s[k], f);
    lemma_sum_prefix(s, k + 1, f);
}

/// Each term is at most the sum.
pub proof fn lemma_sum_term<A>(s: Seq<A>, k: int, f: spec_fn(A) -> nat)
    requires
        0 <= k < s.len(),
    ensures
        f(s[k]) <= sum(s, f),
{
    lemma_sum_take(s, k, f);
}

/// A sum of at most one per item is at most the number of items.
pub proof fn lemma_count_bound<A>(s: Seq<A>, p: spec_fn(A) -> bool)
    ensures
        count(s, p) <= s.len(),
    decreases s.len(),
{
    if s.len() > 0 {
        lemma_count_bound(s.drop_last(), p);
    }
}

/// The terms of a sum over `0..n` that differ from one index vanish.
pub proof fn lemma_sum_single(n: nat, k: int, f: spec_fn(int) -> nat)
    requires
        0 <= k < n,
        forall|i: int| 0 <= i < n && i != k ==> #[trigger] f(i) == 0,
    ensures
        sum(upto(n), f) == f(k),
    decreases n,
{
    let s = upto(n);
    assert(s.drop_last() =~= upto((n - 1) as nat));
    assert(s.last() == n - 1);
    if k == n - 1 {
        lemma_sum_zero(s.drop_last(), f);
    } else {
        lemma_sum_single((n - 1) as nat, k, f);
        assert(f(n - 1) == 0);
    }
}

/// The predicate that holds of the items of class `d`.
pub open spec fn of_class<A>(class: spec_fn(A) -> int, d: int) -> spec_fn(A) -> bool {
    |a: A| class(a) == d
}

/// Sorting items into classes `0..n` keeps their sum: every item is in one class.
pub proof fn lemma_sum_classes<A>(s: Seq<A>, n: nat, class: spec_fn(A) -> int, f: spec_fn(A) -> nat)
    requires
        forall|i: int| 0 <= i < s.len() ==> 0 <= class(#[trigger] s[i]) < n,
    ensures
        sum(upto(n), |d: int| sum(s.filter(of_class(class, d)), f)) == sum(s, f),
{
    let weigh = |d: int, a: A|
        if class(a) == d {
            f(a)
        } else {
            0
        };
    let by_class = |d: int| sum(s.filter(of_class(class, d)), f);
    let by_weight = |d: int| sum(s, |a: A| weigh(d, a));
    assert forall|i: int| 0 <= i < upto(n).len() implies by_class(#[trigger] upto(n)[i])
        == by_weight(upto(n)[i]) by {
        let d = upto(n)[i];
        let p = of_class(class, d);
        let kept = |a: A|
            if p(a) {
                f(a)
            } else {
                0
            };
        lemma_sum_filter(s, p, f);
        lemma_sum_ext(s, kept, |a: A| weigh(d, a));
    }
    lemma_sum_ext(upto(n), by_class, by_weight);
    lemma_sum_swap(upto(n), s, weigh);
    let column = |a: A| sum(upto(n), |d: int| weigh(d, a));
    assert forall|i: int| 0 <= i < s.len() implies column(#[trigger] s[i]) == f(s[i]) by {
        let a = s[i];
        lemma_sum_single(n, class(a), |d: int| weigh(d, a));
    }
    lemma_sum_ext(s, column, f);
}

/// A sum whose terms vanish but at one position is the term there.
pub proof fn lemma_sum_one<A>(s: Seq<A>, k: int, f: spec_fn(A) -> nat)
    requires
        0 <= k < s.len(),
        forall|i: int| 0 <= i < s.len() && i != k ==> f(#[trigger] s[i]) == 0,
    ensures
        sum(s, f) == f(s[k]),
{
    let left = s.take(k);
    let right = s.skip(k + 1);
    assert(s =~= left.push(s[k]) + right);
    lemma_sum_add(left.push(s[k]), right, f);
    lemma_sum_push(left, s[k], f);
    assert forall|i: int| 0 <= i < left.len() implies f(#[trigger] left[i]) == 0 by {
        assert(left[i] == s[i]);
    }
    lemma_sum_zero(left, f);
    assert forall|i: int| 0 <= i < right.len() implies f(#[trigger] right[i]) == 0 by {
        assert(right[i] == s[k + 1 + i]);
    }
    lemma_sum_zero(right, f);
}

/// Summing over mapped items is summing the composed function.
pub proof fn lemma_sum_map<A, B>(s: Seq<A>, g: spec_fn(A) -> B, f: spec_fn(B) -> nat)
    ensures
        sum(s.map_values(g), f) == sum(s, |a: A| f(g(a))),
    decreases s.len(),
{
    if s.len() > 0 {
        assert(s.map_values(g).drop_last() =~= s.drop_last().map_values(g));
        lemma_sum_map(s.drop_last(), g, f);
    }
}

/// Changing one item trades its term for the new one.
pub proof fn lemma_sum_update<A>(s: Seq<A>, i: int, a: A, f: spec_fn(A) -> nat)
    requires
        0 <= i < s.len(),
    ensures
        sum(s.update(i, a), f) + f(s[i]) == sum(s, f) + f(a),
{
    let left = s.take(i);
    let right = s.skip(i + 1);
    assert(s =~= left.push(s[i]) + right);
    assert(s.update(i, a) =~= left.push(a) + right);
    lemma_sum_add(left.push(s[i]), right, f);
    lemma_sum_add(left.push(a), right, f);
    lemma_sum_push(left, s[i], f);
    lemma_sum_push(left, a, f);
}

} // verus!
