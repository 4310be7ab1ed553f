//! Stable grouping of positions by a small integer key, in linear time.

use vstd::prelude::*;

verus! {

/// The positions whose key is `d`, in ascending order.
pub open spec fn positions(keys: Seq<u32>, d: int) -> Seq<int>
    decreases keys.len(),
{
    if keys.len() == 0 {
        Seq::empty()
    } else {
        let before = positions(keys.drop_last(), d);
        if keys.last() == d {
            before.push(keys.len() - 1)
        } else {
            before
        }
    }
}

/// How many keys are smaller than `d`.
pub open spec fn below(keys: Seq<u32>, d: int) -> nat
    decreases keys.len(),
{
    if keys.len() == 0 {
        0
    } else {
        below(keys.drop_last(), d) + if keys.last() < d {
            1nat
        } else {
            0nat
        }
    }
}

/// Positions grouped by key: group `d` is `order[ptr[d]..ptr[d + 1]]`.
pub struct Grouping {
    pub ptr: Vec<usize>,
    pub order: Vec<usize>,
}

impl Grouping {
    /// `self` groups the positions of `keys` under the keys `0..n`.
    pub open spec fn groups(&self, keys: Seq<u32>, n: int) -> bool {
        &&& self.ptr@.len() == n + 1
        &&& self.order@.len() == keys.len()
        &&& self.ptr@[0] == 0
        &&& self.ptr@[n] == keys.len()
        &&& forall|d: int|
            #![trigger self.ptr@[d]]
            0 <= d < n ==> self.ptr@[d + 1] == self.ptr@[d] + positions(keys, d).len()
        &&& forall|d: int| 0 <= d <= n ==> 0 <= #[trigger] self.ptr@[d] <= keys.len()
        &&& forall|d: int, j: int|
            #![trigger positions(keys, d)[j]]
            0 <= d < n && 0 <= j < positions(keys, d).len() ==> self.order@[self.ptr@[d] + j]
                == positions(keys, d)[j]
    }
}

pub proof fn lemma_positions_in_range(keys: Seq<u32>, d: int)
    ensures
        positions(keys, d).len() <= keys.len(),
        forall|j: int|
            0 <= j < positions(keys, d).len() ==> 0 <= #[trigger] positions(keys, d)[j]
                < keys.len() && keys[positions(keys, d)[j]] == d,
    decreases keys.len(),
{
    if keys.len() > 0 {
        lemma_positions_in_range(keys.drop_last(), d);
        assert forall|j: int| 0 <= j < positions(keys, d).len() implies 0
            <= #[trigger] positions(keys, d)[j] < keys.len() && keys[positions(keys, d)[j]]
            == d by {
            if j < positions(keys.drop_last(), d).len() {
                let p = positions(keys.drop_last(), d)[j];
                assert(keys.drop_last()[p] == keys[p]);
            }
        }
    }
}

proof fn lemma_below_step(keys: Seq<u32>, d: int)
    ensures
        below(keys, d + 1) == below(keys, d) + positions(keys, d).len(),
    decreases keys.len(),
{
    if keys.len() > 0 {
        lemma_below_step(keys.drop_last(), d);
    }
}

proof fn lemma_below_mono(keys: Seq<u32>, c: int, d: int)
    requires
        c <= d,
    ensures
        below(keys, c) <= below(keys, d) <= keys.len(),
    decreases keys.len(),
{
    if keys.len() > 0 {
        lemma_below_mono(keys.drop_last(), c, d);
    }
}

proof fn lemma_below_ends(keys: Seq<u32>, n: int)
    requires
        forall|i: int| 0 <= i < keys.len() ==> #[trigger] keys[i] < n,
    ensures
        below(keys, 0) == 0,
        below(keys, n) == keys.len(),
    decreases keys.len(),
{
    if keys.len() > 0 {
        assert forall|i: int| 0 <= i < keys.drop_last().len() implies #[trigger] keys.drop_last()[i]
            < n by {
            assert(keys.drop_last()[i] == keys[i]);
        }
        lemma_below_ends(keys.drop_last(), n);
        assert(keys.last() == keys[keys.len() - 1]);
    }
}

proof fn lemma_positions_take(keys: Seq<u32>, i: int, d: int)
    requires
        0 <= i < keys.len(),
    ensures
        positions(keys.take(i + 1), d) == (if keys[i] == d {
            positions(keys.take(i), d).push(i)
        } else {
            positions(keys.take(i), d)
        }),
{
    assert(keys.take(i + 1).drop_last() =~= keys.take(i));
}

proof fn lemma_positions_prefix(keys: Seq<u32>, i: int, d: int)
    requires
        0 <= i <= keys.len(),
    ensures
        positions(keys.take(i), d).len() <= positions(keys, d).len(),
        i < keys.len() && keys[i] == d ==> positions(keys.take(i), d).len() < positions(
            keys,
            d,
        ).len(),
    decreases keys.len() - i,
{
    if i == keys.len() {
        assert(keys.take(i) =~= keys);
    } else {
        lemma_positions_take(keys, i, d);
        lemma_positions_prefix(keys, i + 1, d);
    }
}

/// Groups the positions of `keys` by key, keeping their order inside a group.
pub fn group_by_key(keys: &Vec<u32>, n: usize) -> (g: Grouping)
    requires
        forall|i: int| 0 <= i < keys@.len() ==> #[trigger] keys@[i] < n,
        n < usize::MAX,
    ensures
        g.groups(keys@, n as int),
{
    let len: usize = keys.len();
    let mut ptr: Vec<usize> = vec![0usize; n + 1];
    let mut i: usize = 0;
    while i < len
        invariant
            i <= len,
            len == keys@.len(),
            n < usize::MAX,
            ptr@.len() == n + 1,
            forall|k: int| 0 <= k < keys@.len() ==> #[trigger] keys@[k] < n,
            ptr@[0] == 0,
            forall|d: int|
                0 <= d < n ==> #[trigger] ptr@[d + 1] == positions(
                    keys@.take(i as int),
                    d,
                ).len(),
        decreases len - i,
    {
        let k: usize = keys[i] as usize;
        proof {
            assert forall|d: int| 0 <= d < n implies positions(keys@.take(i + 1), d).len()
                == positions(keys@.take(i as int), d).len() + (if d == k {
                1nat
            } else {
                0nat
            }) by {
                lemma_positions_take(keys@, i as int, d);
            }
            lemma_positions_in_range(keys@.take(i as int), k as int);
            assert(ptr@[k + 1] == positions(keys@.take(i as int), k as int).len());
        }
        let was: usize = ptr[k + 1];
        ptr.set(k + 1, was + 1);
        i = i + 1;
    }
    proof {
        assert(keys@.take(i as int) =~= keys@);
        lemma_below_ends(keys@, n as int);
        assert forall|c: int| 0 < c <= n implies #[trigger] ptr@[c] == positions(
            keys@,
            c - 1,
        ).len() by {
            assert(ptr@[(c - 1) + 1] == positions(keys@.take(i as int), c - 1).len());
        }
    }
    let mut d: usize = 0;
    while d < n
        invariant
            d <= n,
            len == keys@.len(),
            ptr@.len() == n + 1,
            forall|c: int| 0 <= c <= d ==> #[trigger] ptr@[c] == below(keys@, c),
            forall|c: int|
                d < c <= n ==> #[trigger] ptr@[c] == positions(keys@, c - 1).len(),
        decreases n - d,
    {
        proof {
            lemma_below_step(keys@, d as int);
            lemma_below_mono(keys@, d + 1, d + 1);
        }
        let here: usize = ptr[d];
        let next: usize = ptr[d + 1];
        ptr.set(d + 1, here + next);
        d = d + 1;
    }
    let mut at: Vec<usize> = ptr.clone();
    let mut order: Vec<usize> = vec![0usize; len];
    assert(at@ =~= ptr@);
    let mut i: usize = 0;
    proof {
        assert forall|d: int| 0 <= d < n implies positions(keys@.take(0), d).len() == 0 by {}
    }
    while i < len
        invariant
            i <= len,
            len == keys@.len(),
            n < usize::MAX,
            ptr@.len() == n + 1,
            at@.len() == n + 1,
            order@.len() == len,
            forall|k: int| 0 <= k < keys@.len() ==> #[trigger] keys@[k] < n,
            forall|c: int| 0 <= c <= n ==> #[trigger] ptr@[c] == below(keys@, c),
            forall|c: int|
                0 <= c < n ==> #[trigger] at@[c] == below(keys@, c) + positions(
                    keys@.take(i as int),
                    c,
                ).len(),
            forall|c: int, j: int|
                #![trigger positions(keys@.take(i as int), c)[j]]
                0 <= c < n && 0 <= j < positions(keys@.take(i as int), c).len() ==> order@[below(
                    keys@,
                    c,
                ) + j] == positions(keys@.take(i as int), c)[j],
        decreases len - i,
    {
        let k: usize = keys[i] as usize;
        let ghost order0 = order@;
        let slot: usize = at[k];
        proof {
            lemma_positions_prefix(keys@, i as int, k as int);
            lemma_below_step(keys@, k as int);
            lemma_below_mono(keys@, k + 1, k + 1);
            assert(slot < len);
        }
        order.set(slot, i);
        at.set(k, slot + 1);
        proof {
            assert forall|c: int| 0 <= c < n implies #[trigger] at@[c] == below(keys@, c)
                + positions(keys@.take(i + 1), c).len() by {
                lemma_positions_take(keys@, i as int, c);
            }
            assert forall|c: int, j: int|
                #![trigger positions(keys@.take(i + 1), c)[j]]
                0 <= c < n && 0 <= j < positions(
                    keys@.take(i + 1),
                    c,
                ).len() implies order@[below(keys@, c) + j] == positions(
                keys@.take(i + 1),
                c,
            )[j] by {
                lemma_positions_take(keys@, i as int, c);
                lemma_positions_prefix(keys@, i as int, c);
                lemma_below_step(keys@, c);
                lemma_below_mono(keys@, c + 1, c + 1);
                if c == k {
                    if j < positions(keys@.take(i as int), c).len() {
                        assert(order0[below(keys@, c) + j] == positions(
                            keys@.take(i as int),
                            c,
                        )[j]);
                    }
                } else {
                    if c < k {
                        lemma_below_mono(keys@, c + 1, k as int);
                    } else {
                        lemma_below_mono(keys@, k + 1, c);
                    }
                    assert(order0[below(keys@, c) + j] == positions(keys@.take(i as int), c)[j]);
                }
            }
        }
        i = i + 1;
    }
    proof {
        assert(keys@.take(i as int) =~= keys@);
        lemma_below_ends(keys@, n as int);
        assert forall|c: int| 0 <= c <= n implies 0 <= #[trigger] ptr@[c] <= keys@.len() by {
            lemma_below_mono(keys@, c, n as int);
        }
        assert forall|c: int| #![trigger ptr@[c]] 0 <= c < n implies ptr@[c + 1] == ptr@[c]
            + positions(keys@, c).len() by {
            lemma_below_step(keys@, c);
            assert(ptr@[c + 1] == below(keys@, c + 1));
        }
    }
    Grouping { ptr, order }
}

} // verus!
