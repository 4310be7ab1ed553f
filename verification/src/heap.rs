//! A binary heap of nodes keyed by cost, the cheapest on top.

use vstd::prelude::*;

use crate::cost::Cost;

verus! {

/// Entries in heap order: none is cheaper than the one above it.
pub struct MinHeap<C: Cost> {
    pub items: Vec<(C, usize)>,
}

/// The position above `i`.
pub open spec fn above(i: int) -> int {
    (i - 1) / 2
}

/// Heap order everywhere but between `hole` and the position above it; around
/// `hole` the order holds between what is above and what is below.
pub open spec fn ordered_but_up<C: Cost>(s: Seq<(C, usize)>, hole: int) -> bool {
    &&& forall|j: int| 0 < j < s.len() && j != hole ==> s[above(j)].0.le((#[trigger] s[j]).0)
    &&& forall|j: int|
        0 < j < s.len() && above(j) == hole && hole > 0 ==> s[above(hole)].0.le(
            (#[trigger] s[j]).0,
        )
}

/// Heap order everywhere but between `hole` and what is below it.
pub open spec fn ordered_but_down<C: Cost>(s: Seq<(C, usize)>, hole: int) -> bool {
    &&& forall|j: int|
        0 < j < s.len() && above(j) != hole ==> s[above(j)].0.le((#[trigger] s[j]).0)
    &&& forall|j: int|
        0 < j < s.len() && above(j) == hole && hole > 0 ==> s[above(hole)].0.le(
            (#[trigger] s[j]).0,
        )
}

/// Heap order.
pub open spec fn ordered<C: Cost>(s: Seq<(C, usize)>) -> bool {
    forall|j: int| 0 < j < s.len() ==> s[above(j)].0.le((#[trigger] s[j]).0)
}

proof fn lemma_top<C: Cost>(s: Seq<(C, usize)>, j: int)
    requires
        ordered(s),
        0 <= j < s.len(),
    ensures
        s[0].0.le(s[j].0),
    decreases j,
{
    C::law_order(s[0].0, s[0].0, s[0].0);
    if j > 0 {
        let i = above(j);
        assert(0 <= i < j);
        lemma_top(s, i);
        assert(s[above(j)].0.le(s[j].0));
        C::law_order(s[0].0, s[i].0, s[j].0);
    }
}

impl<C: Cost> MinHeap<C> {
    /// The heap is in heap order.
    pub open spec fn wf(&self) -> bool {
        ordered(self.items@)
    }

    /// Whether an entry is in the heap.
    pub open spec fn holds(&self, e: (C, usize)) -> bool {
        self.items@.contains(e)
    }

    /// The number of entries.
    pub open spec fn size(&self) -> nat {
        self.items@.len()
    }

    /// An empty heap.
    pub fn new() -> (h: Self)
        ensures
            h.wf(),
            h.size() == 0,
    {
        MinHeap { items: Vec::new() }
    }

    /// Adds an entry.
    pub fn push(&mut self, cost: C, node: usize)
        requires
            old(self).wf(),
        ensures
            final(self).wf(),
            final(self).size() == old(self).size() + 1,
            forall|e: (C, usize)|
                #[trigger] final(self).holds(e) <==> old(self).holds(e) || e == (cost, node),
    {
        let ghost before = self.items@;
        self.items.push((cost, node));
        let mut i: usize = self.items.len() - 1;
        proof {
            assert(self.items@[before.len() as int] == (cost, node));
            assert forall|e: (C, usize)| #[trigger] self.items@.contains(e) <==> before.contains(e)
                || e == (cost, node) by {
                if before.contains(e) {
                    let k = choose|k: int| 0 <= k < before.len() && before[k] == e;
                    assert(self.items@[k] == e);
                }
            }
        }
        while i > 0
            invariant
                i < self.items@.len(),
                self.items@.len() == before.len() + 1,
                ordered_but_up(self.items@, i as int),
                forall|e: (C, usize)|
                    #[trigger] self.items@.contains(e) <==> before.contains(e) || e == (
                        cost,
                        node,
                    ),
            ensures
                self.items@.len() == before.len() + 1,
                ordered(self.items@),
                forall|e: (C, usize)|
                    #[trigger] self.items@.contains(e) <==> before.contains(e) || e == (
                        cost,
                        node,
                    ),
            decreases i,
        {
            let p: usize = (i - 1) / 2;
            let child: (C, usize) = self.items[i];
            let parent: (C, usize) = self.items[p];
            let ghost s = self.items@;
            if !child.0.less(&parent.0) {
                break;
            }
            self.items.set(i, parent);
            self.items.set(p, child);
            proof {
                let t = self.items@;
                C::law_order(child.0, parent.0, parent.0);
                assert forall|j: int| 0 < j < t.len() && j != p implies t[above(j)].0.le(
                    (#[trigger] t[j]).0,
                ) by {
                    if j != i {
                        assert(s[above(j)].0.le(s[j].0));
                        if above(j) == i {
                            assert(s[above(i as int)].0.le(s[j].0));
                        } else if above(j) == p {
                            C::law_order(child.0, parent.0, s[j].0);
                        }
                    }
                }
                assert forall|j: int|
                    0 < j < t.len() && above(j) == p && p > 0 implies t[above(p as int)].0.le(
                    (#[trigger] t[j]).0,
                ) by {
                    assert(s[above(p as int)].0.le(s[p as int].0));
                    if j != i {
                        assert(s[above(j)].0.le(s[j].0));
                        C::law_order(s[above(p as int)].0, parent.0, s[j].0);
                    }
                }
                lemma_swap_contains(s, t, i as int, p as int);
            }
            i = p;
        }
    }

    /// Takes out a cheapest entry.
    pub fn pop(&mut self) -> (r: Option<(C, usize)>)
        requires
            old(self).wf(),
        ensures
            final(self).wf(),
            r is None <==> old(self).size() == 0,
            r is None ==> final(self).size() == 0,
            r matches Some(top) ==> {
                &&& final(self).size() + 1 == old(self).size()
                &&& old(self).holds(top)
                &&& forall|e: (C, usize)| #[trigger] old(self).holds(e) ==> top.0.le(e.0)
                &&& forall|e: (C, usize)| #[trigger] final(self).holds(e) ==> old(self).holds(e)
                &&& forall|e: (C, usize)|
                    #[trigger] old(self).holds(e) && e != top ==> final(self).holds(e)
            },
    {
        let ghost before = self.items@;
        let n: usize = self.items.len();
        if n == 0 {
            return None;
        }
        let top: (C, usize) = self.items[0];
        proof {
            assert(before.contains(before[0]));
            assert forall|e: (C, usize)| #[trigger] before.contains(e) implies top.0.le(e.0) by {
                let k = choose|k: int| 0 <= k < before.len() && before[k] == e;
                lemma_top(before, k);
            }
        }
        let last: (C, usize) = self.items[n - 1];
        self.items.set(0, last);
        let popped = self.items.pop();
        let len: usize = n - 1;
        proof {
            let t = self.items@;
            assert forall|e: (C, usize)| #[trigger] t.contains(e) implies before.contains(e) by {
                let k = choose|k: int| 0 <= k < t.len() && t[k] == e;
                if k == 0 {
                    assert(before[n - 1] == e);
                } else {
                    assert(before[k] == e);
                }
            }
            assert forall|e: (C, usize)|
                #[trigger] before.contains(e) && e != top implies t.contains(e) by {
                let k = choose|k: int| 0 <= k < before.len() && before[k] == e;
                if k == n - 1 {
                    assert(t[0] == e);
                } else {
                    assert(t[k] == e);
                }
            }
            assert forall|j: int| 0 < j < t.len() && above(j) != 0 implies t[above(j)].0.le(
                (#[trigger] t[j]).0,
            ) by {
                assert(before[above(j)].0.le(before[j].0));
            }
        }
        let mut i: usize = 0;
        loop
            invariant
                len == self.items@.len(),
                i <= len,
                ordered_but_down(self.items@, i as int),
                forall|e: (C, usize)| #[trigger] self.items@.contains(e) ==> before.contains(e),
                forall|e: (C, usize)|
                    #[trigger] before.contains(e) && e != top ==> self.items@.contains(e),
            ensures
                len == self.items@.len(),
                ordered(self.items@),
                forall|e: (C, usize)| #[trigger] self.items@.contains(e) ==> before.contains(e),
                forall|e: (C, usize)|
                    #[trigger] before.contains(e) && e != top ==> self.items@.contains(e),
            decreases len - i,
        {
            if len == 0 || i > (len - 1) / 2 || 2 * i + 1 >= len {
                proof {
                    assert forall|j: int| 0 < j < len implies above(j) != i by {}
                }
                break;
            }
            let left: usize = 2 * i + 1;
            let ghost s = self.items@;
            let mut c: usize = left;
            if left + 1 < len {
                if self.items[left + 1].0.less(&self.items[left].0) {
                    c = left + 1;
                }
            }
            let child: (C, usize) = self.items[c];
            let here: (C, usize) = self.items[i];
            proof {
                C::law_order(s[left as int].0, s[left as int].0, s[left as int].0);
                assert forall|j: int| 0 < j < len && above(j) == i implies child.0.le(
                    (#[trigger] s[j]).0,
                ) by {
                    assert(j == left || j == left + 1);
                    if left + 1 < len {
                        C::law_order(s[left as int].0, s[left + 1].0, s[left + 1].0);
                        C::law_order(s[left + 1].0, s[left + 1].0, s[left + 1].0);
                    }
                }
                C::law_order(here.0, child.0, child.0);
            }
            if !child.0.less(&here.0) {
                proof {
                    assert forall|j: int| 0 < j < len implies s[above(j)].0.le(
                        (#[trigger] s[j]).0,
                    ) by {
                        if above(j) == i {
                            C::law_order(here.0, child.0, s[j].0);
                        }
                    }
                }
                break;
            }
            self.items.set(i, child);
            self.items.set(c, here);
            proof {
                let t = self.items@;
                assert(above(c as int) == i);
                assert forall|j: int| 0 < j < t.len() && above(j) != c implies t[above(j)].0.le(
                    (#[trigger] t[j]).0,
                ) by {
                    if above(j) == i {
                        if j == c {
                            C::law_order(child.0, here.0, here.0);
                        }
                    } else if j == i {
                        assert(s[above(i as int)].0.le(s[c as int].0));
                    } else {
                        assert(s[above(j)].0.le(s[j].0));
                    }
                }
                assert forall|j: int|
                    0 < j < t.len() && above(j) == c && c > 0 implies t[above(c as int)].0.le(
                    (#[trigger] t[j]).0,
                ) by {
                    assert(s[above(j)].0.le(s[j].0));
                }
                lemma_swap_contains(s, t, i as int, c as int);
            }
            i = c;
        }
        Some(top)
    }
}

/// Swapping two entries keeps what is in a sequence.
proof fn lemma_swap_contains<A>(s: Seq<A>, t: Seq<A>, i: int, j: int)
    requires
        0 <= i < s.len(),
        0 <= j < s.len(),
        t == s.update(i, s[j]).update(j, s[i]),
    ensures
        forall|e: A| #[trigger] t.contains(e) <==> s.contains(e),
{
    assert forall|e: A| #[trigger] t.contains(e) <==> s.contains(e) by {
        if s.contains(e) {
            let k = choose|k: int| 0 <= k < s.len() && s[k] == e;
            if k == i {
                assert(t[j] == e);
            } else if k == j {
                if i == j {
                    assert(t[j] == e);
                } else {
                    assert(t[i] == e);
                }
            } else {
                assert(t[k] == e);
            }
        }
        if t.contains(e) {
            let k = choose|k: int| 0 <= k < t.len() && t[k] == e;
            if k == j {
                assert(s[i] == e);
            } else if k == i {
                assert(s[j] == e);
            } else {
                assert(s[k] == e);
            }
        }
    }
}

} // verus!
