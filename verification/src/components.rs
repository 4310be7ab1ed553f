//! Connectivity: union-find, weakly connected components, spanning forests.

use vstd::prelude::*;

use crate::csr::CsrSnapshot;
use crate::flow::slot_owners;
use crate::weighted::in_row;

verus! {

/// Two nodes that a link joins, in either direction.
pub open spec fn linked(links: Seq<(int, int)>, u: int, v: int) -> bool {
    links.contains((u, v)) || links.contains((v, u))
}

/// A sequence of nodes that follows links, in either direction.
pub open spec fn is_trail(links: Seq<(int, int)>, p: Seq<int>) -> bool {
    &&& p.len() > 0
    &&& forall|i: int| 0 <= i < p.len() - 1 ==> linked(links, #[trigger] p[i], p[i + 1])
}

/// Some trail of links leads from `u` to `v`.
pub open spec fn connected(links: Seq<(int, int)>, u: int, v: int) -> bool {
    exists|p: Seq<int>| #[trigger] is_trail(links, p) && p[0] == u && p.last() == v
}

pub proof fn lemma_connected_self(links: Seq<(int, int)>, u: int)
    ensures
        connected(links, u, u),
{
    assert(is_trail(links, seq![u]));
}

pub proof fn lemma_connected_link(links: Seq<(int, int)>, u: int, v: int)
    requires
        linked(links, u, v),
    ensures
        connected(links, u, v),
{
    let p = seq![u, v];
    assert(is_trail(links, p)) by {
        assert forall|i: int| 0 <= i < p.len() - 1 implies linked(
            links,
            #[trigger] p[i],
            p[i + 1],
        ) by {}
    }
}

pub proof fn lemma_connected_symmetric(links: Seq<(int, int)>, u: int, v: int)
    requires
        connected(links, u, v),
    ensures
        connected(links, v, u),
{
    let p = choose|p: Seq<int>| #[trigger] is_trail(links, p) && p[0] == u && p.last() == v;
    let q = p.reverse();
    assert(is_trail(links, q)) by {
        assert forall|i: int| 0 <= i < q.len() - 1 implies linked(
            links,
            #[trigger] q[i],
            q[i + 1],
        ) by {
            let j = p.len() - 2 - i;
            assert(linked(links, p[j], p[j + 1]));
        }
    }
}

pub proof fn lemma_connected_transitive(links: Seq<(int, int)>, u: int, v: int, w: int)
    requires
        connected(links, u, v),
        connected(links, v, w),
    ensures
        connected(links, u, w),
{
    let p = choose|p: Seq<int>| #[trigger] is_trail(links, p) && p[0] == u && p.last() == v;
    let q = choose|q: Seq<int>| #[trigger] is_trail(links, q) && q[0] == v && q.last() == w;
    let r = p + q.skip(1);
    assert(is_trail(links, r)) by {
        assert forall|i: int| 0 <= i < r.len() - 1 implies linked(
            links,
            #[trigger] r[i],
            r[i + 1],
        ) by {
            if i < p.len() - 1 {
                assert(linked(links, p[i], p[i + 1]));
            } else {
                let j = i - (p.len() - 1);
                assert(linked(links, q[j], q[j + 1]));
                assert(r[i] == q[j]);
            }
        }
    }
    assert(r.last() == w) by {
        if q.len() == 1 {
            assert(r =~= p);
        }
    }
}

/// More links connect no less.
pub proof fn lemma_connected_more(
    links: Seq<(int, int)>,
    more: Seq<(int, int)>,
    u: int,
    v: int,
)
    requires
        forall|l: (int, int)| #[trigger] links.contains(l) ==> more.contains(l),
        connected(links, u, v),
    ensures
        connected(more, u, v),
{
    let p = choose|p: Seq<int>| #[trigger] is_trail(links, p) && p[0] == u && p.last() == v;
    assert(is_trail(more, p)) by {
        assert forall|i: int| 0 <= i < p.len() - 1 implies linked(
            more,
            #[trigger] p[i],
            p[i + 1],
        ) by {
            assert(linked(links, p[i], p[i + 1]));
        }
    }
}

/// A mark that every link keeps is the same on connected nodes.
pub proof fn lemma_connected_mark(
    links: Seq<(int, int)>,
    mark: spec_fn(int) -> int,
    u: int,
    v: int,
)
    requires
        forall|i: int| 0 <= i < links.len() ==> mark((#[trigger] links[i]).0) == mark(links[i].1),
        connected(links, u, v),
    ensures
        mark(u) == mark(v),
{
    let p = choose|p: Seq<int>| #[trigger] is_trail(links, p) && p[0] == u && p.last() == v;
    lemma_trail_mark(links, mark, p);
}

proof fn lemma_trail_mark(links: Seq<(int, int)>, mark: spec_fn(int) -> int, p: Seq<int>)
    requires
        forall|i: int| 0 <= i < links.len() ==> mark((#[trigger] links[i]).0) == mark(links[i].1),
        is_trail(links, p),
    ensures
        mark(p[0]) == mark(p.last()),
    decreases p.len(),
{
    if p.len() > 1 {
        let q = p.drop_last();
        assert(is_trail(links, q)) by {
            assert forall|i: int| 0 <= i < q.len() - 1 implies linked(
                links,
                #[trigger] q[i],
                q[i + 1],
            ) by {
                assert(linked(links, p[i], p[i + 1]));
            }
        }
        lemma_trail_mark(links, mark, q);
        let i = p.len() - 2;
        assert(linked(links, p[i], p[i + 1]));
    }
}

/// The representative of `v`: where following the parents ends.
pub open spec fn root(parent: Seq<usize>, v: int) -> int
    decreases v,
{
    if 0 <= parent[v] < v {
        root(parent, parent[v] as int)
    } else {
        v
    }
}

/// A forest over the nodes, every parent at most its child.
pub open spec fn is_forest(parent: Seq<usize>) -> bool {
    forall|v: int| 0 <= v < parent.len() ==> (#[trigger] parent[v]) <= v
}

proof fn lemma_root_range(parent: Seq<usize>, v: int)
    requires
        is_forest(parent),
        0 <= v < parent.len(),
    ensures
        0 <= root(parent, v) <= v,
        parent[root(parent, v)] == root(parent, v),
        root(parent, root(parent, v)) == root(parent, v),
    decreases v,
{
    assert(parent[v] <= v);
    if parent[v] < v {
        lemma_root_range(parent, parent[v] as int);
    }
}

/// Hanging a node on another of its tree changes no representative.
proof fn lemma_shortcut(parent: Seq<usize>, x: int, y: usize, v: int)
    requires
        is_forest(parent),
        0 <= x < parent.len(),
        y < x,
        root(parent, y as int) == root(parent, x),
        0 <= v < parent.len(),
    ensures
        root(parent.update(x, y), v) == root(parent, v),
    decreases v,
{
    let next = parent.update(x, y);
    assert(parent[v] <= v);
    if v == x {
        lemma_shortcut(parent, x, y, y as int);
    } else if parent[v] < v {
        lemma_shortcut(parent, x, y, parent[v] as int);
    }
}

/// Hanging one representative on another merges their trees.
proof fn lemma_merge(parent: Seq<usize>, child: int, top: usize, v: int)
    requires
        is_forest(parent),
        0 <= child < parent.len(),
        top < child,
        root(parent, child) == child,
        root(parent, top as int) == top,
        0 <= v < parent.len(),
    ensures
        root(parent.update(child, top), v) == (if root(parent, v) == child {
            top as int
        } else {
            root(parent, v)
        }),
    decreases v,
{
    let next = parent.update(child, top);
    assert(parent[v] <= v);
    if v == child {
        lemma_merge(parent, child, top, top as int);
    } else if parent[v] < v {
        lemma_merge(parent, child, top, parent[v] as int);
    }
}

/// Nodes in disjoint trees, and the links that were joined so far.
pub struct UnionFind {
    pub parent: Vec<usize>,
    pub links: Ghost<Seq<(int, int)>>,
}

impl UnionFind {
    /// Two nodes have the same representative exactly where links connect them.
    pub open spec fn wf(&self) -> bool {
        &&& is_forest(self.parent@)
        &&& forall|i: int|
            0 <= i < self.links@.len() ==> 0 <= (#[trigger] self.links@[i]).0 < self.parent@.len()
                && 0 <= self.links@[i].1 < self.parent@.len()
        &&& forall|i: int|
            0 <= i < self.links@.len() ==> root(self.parent@, (#[trigger] self.links@[i]).0)
                == root(self.parent@, self.links@[i].1)
        &&& forall|v: int|
            0 <= v < self.parent@.len() ==> connected(self.links@, v, #[trigger] root(self.parent@, v))
    }

    /// `n` nodes, none of them joined.
    pub fn new(n: usize) -> (u: UnionFind)
        ensures
            u.wf(),
            u.parent@.len() == n,
            u.links@ == Seq::<(int, int)>::empty(),
    {
        let mut parent: Vec<usize> = Vec::new();
        while parent.len() < n
            invariant
                parent@.len() <= n,
                forall|v: int| 0 <= v < parent@.len() ==> #[trigger] parent@[v] == v,
            decreases n - parent@.len(),
        {
            let v: usize = parent.len();
            parent.push(v);
        }
        let u = UnionFind { parent, links: Ghost(Seq::empty()) };
        proof {
            assert forall|v: int| 0 <= v < u.parent@.len() implies connected(
                u.links@,
                v,
                #[trigger] root(u.parent@, v),
            ) by {
                lemma_connected_self(u.links@, v);
            }
        }
        u
    }

    /// The representative of a node. Shortens the way to it.
    pub fn find(&mut self, node: usize) -> (r: usize)
        requires
            old(self).wf(),
            node < old(self).parent@.len(),
        ensures
            final(self).wf(),
            final(self).links@ == old(self).links@,
            final(self).parent@.len() == old(self).parent@.len(),
            r < final(self).parent@.len(),
            r == root(old(self).parent@, node as int),
            forall|v: int|
                0 <= v < final(self).parent@.len() ==> #[trigger] root(final(self).parent@, v)
                    == root(old(self).parent@, v),
    {
        let ghost start = self.parent@;
        let mut cur: usize = node;
        while self.parent[cur] != cur
            invariant
                self.wf(),
                self.links@ == old(self).links@,
                self.parent@.len() == start.len(),
                cur < start.len(),
                root(start, node as int) == root(start, cur as int),
                forall|v: int|
                    0 <= v < start.len() ==> #[trigger] root(self.parent@, v) == root(start, v),
            ensures
                self.wf(),
                self.links@ == old(self).links@,
                self.parent@.len() == start.len(),
                cur < start.len(),
                self.parent@[cur as int] == cur,
                root(start, node as int) == root(start, cur as int),
                forall|v: int|
                    0 <= v < start.len() ==> #[trigger] root(self.parent@, v) == root(start, v),
            decreases cur,
        {
            let ghost before = self.parent@;
            let p: usize = self.parent[cur];
            assert(before[cur as int] <= cur);
            let grand: usize = self.parent[p];
            assert(before[p as int] <= p);
            proof {
                assert(root(before, cur as int) == root(before, p as int));
                assert(root(before, p as int) == root(before, grand as int)) by {
                    if grand == p {
                    }
                }
            }
            self.parent.set(cur, grand);
            proof {
                assert forall|v: int| 0 <= v < start.len() implies #[trigger] root(
                    self.parent@,
                    v,
                ) == root(start, v) by {
                    lemma_shortcut(before, cur as int, grand, v);
                    assert(root(before, v) == root(start, v));
                }
                assert forall|i: int| 0 <= i < self.links@.len() implies root(
                    self.parent@,
                    (#[trigger] self.links@[i]).0,
                ) == root(self.parent@, self.links@[i].1) by {
                    let l = self.links@[i];
                    assert(root(before, l.0) == root(before, l.1));
                    lemma_shortcut(before, cur as int, grand, l.0);
                    lemma_shortcut(before, cur as int, grand, l.1);
                }
                assert forall|v: int| 0 <= v < self.parent@.len() implies connected(
                    self.links@,
                    v,
                    #[trigger] root(self.parent@, v),
                ) by {
                    lemma_shortcut(before, cur as int, grand, v);
                    assert(connected(self.links@, v, root(before, v)));
                }
                assert(root(start, cur as int) == root(before, cur as int));
                assert(root(start, grand as int) == root(before, grand as int));
            }
            cur = grand;
        }
        proof {
            assert(root(self.parent@, cur as int) == cur);
        }
        cur
    }

    /// Joins two nodes. Tells whether they were not connected before.
    pub fn union(&mut self, u: usize, v: usize) -> (joined: bool)
        requires
            old(self).wf(),
            u < old(self).parent@.len(),
            v < old(self).parent@.len(),
        ensures
            final(self).wf(),
            final(self).parent@.len() == old(self).parent@.len(),
            final(self).links@ == old(self).links@.push((u as int, v as int)),
            joined == !connected(old(self).links@, u as int, v as int),
    {
        let ghost links = self.links@;
        let ghost more = links.push((u as int, v as int));
        let a: usize = self.find(u);
        let b: usize = self.find(v);
        let ghost before = self.parent@;
        let ghost state = *self;
        proof {
            lemma_root_range(before, u as int);
            lemma_root_range(before, v as int);
            assert(root(before, u as int) == a && root(before, v as int) == b);
            lemma_more_links(links, u as int, v as int);
            lemma_same_root(state, u as int, v as int);
        }
        self.links = Ghost(more);
        if a == b {
            proof {
                assert forall|x: int| 0 <= x < before.len() implies connected(
                    more,
                    x,
                    #[trigger] root(before, x),
                ) by {
                    assert(connected(links, x, root(before, x)));
                    lemma_connected_more(links, more, x, root(before, x));
                }
                assert forall|i: int| 0 <= i < more.len() implies root(
                    before,
                    (#[trigger] more[i]).0,
                ) == root(before, more[i].1) by {
                    if i < links.len() {
                        assert(more[i] == links[i]);
                    }
                }
                assert forall|i: int| 0 <= i < more.len() implies 0 <= (#[trigger] more[i]).0
                    < before.len() && 0 <= more[i].1 < before.len() by {
                    if i < links.len() {
                        assert(more[i] == links[i]);
                    }
                }
            }
            false
        } else {
            let (top, child) = if a < b {
                (a, b)
            } else {
                (b, a)
            };
            self.parent.set(child, top);
            proof {
                let next = self.parent@;
                assert forall|x: int| 0 <= x < before.len() implies connected(
                    more,
                    x,
                    #[trigger] root(next, x),
                ) by {
                    lemma_merge(before, child as int, top, x);
                    let r = root(before, x);
                    assert(connected(links, x, r));
                    lemma_connected_more(links, more, x, r);
                    if r == child {
                        assert(connected(links, u as int, root(before, u as int)));
                        assert(connected(links, v as int, root(before, v as int)));
                        lemma_connected_more(links, more, u as int, a as int);
                        lemma_connected_more(links, more, v as int, b as int);
                        assert(more[links.len() as int] == (u as int, v as int));
                        lemma_connected_link(more, u as int, v as int);
                        lemma_connected_symmetric(more, u as int, a as int);
                        lemma_connected_transitive(more, a as int, u as int, v as int);
                        lemma_connected_transitive(more, a as int, v as int, b as int);
                        lemma_connected_symmetric(more, a as int, b as int);
                        lemma_connected_transitive(more, x, child as int, top as int);
                    }
                }
                assert forall|i: int| 0 <= i < more.len() implies root(
                    next,
                    (#[trigger] more[i]).0,
                ) == root(next, more[i].1) by {
                    if i < links.len() {
                        assert(more[i] == links[i]);
                        assert(root(before, links[i].0) == root(before, links[i].1));
                        lemma_merge(before, child as int, top, links[i].0);
                        lemma_merge(before, child as int, top, links[i].1);
                    } else {
                        lemma_merge(before, child as int, top, u as int);
                        lemma_merge(before, child as int, top, v as int);
                    }
                }
                assert forall|i: int| 0 <= i < more.len() implies 0 <= (#[trigger] more[i]).0
                    < before.len() && 0 <= more[i].1 < before.len() by {
                    if i < links.len() {
                        assert(more[i] == links[i]);
                    }
                }
                assert(is_forest(next)) by {
                    assert forall|x: int| 0 <= x < next.len() implies (#[trigger] next[x])
                        <= x by {
                        assert(before[x] <= x);
                    }
                }
            }
            true
        }
    }
}

proof fn lemma_more_links(links: Seq<(int, int)>, u: int, v: int)
    ensures
        forall|l: (int, int)|
            #[trigger] links.contains(l) ==> links.push((u, v)).contains(l),
{
    assert forall|l: (int, int)| #[trigger] links.contains(l) implies links.push((u, v)).contains(
        l,
    ) by {
        let i = choose|i: int| 0 <= i < links.len() && links[i] == l;
        assert(links.push((u, v))[i] == l);
    }
}

/// Nodes have the same representative exactly where they are connected.
pub proof fn lemma_same_root(s: UnionFind, u: int, v: int)
    requires
        s.wf(),
        0 <= u < s.parent@.len(),
        0 <= v < s.parent@.len(),
    ensures
        root(s.parent@, u) == root(s.parent@, v) <==> connected(s.links@, u, v),
{
    if connected(s.links@, u, v) {
        lemma_connected_mark(s.links@, |x: int| root(s.parent@, x), u, v);
    }
    if root(s.parent@, u) == root(s.parent@, v) {
        let r = root(s.parent@, u);
        assert(connected(s.links@, u, root(s.parent@, u)));
        assert(connected(s.links@, v, root(s.parent@, v)));
        lemma_connected_symmetric(s.links@, v, r);
        lemma_connected_transitive(s.links@, u, r, v);
    }
}

/// The edges of a snapshot as links.
pub open spec fn all_links(snap: CsrSnapshot) -> Seq<(int, int)> {
    Seq::new(snap.edges@.len(), |i: int| (snap.edges@[i].src, snap.edges@[i].dst))
}

/// `m` is the smallest node that is connected with `v`.
pub open spec fn smallest_connected(snap: CsrSnapshot, v: int, m: int) -> bool {
    &&& 0 <= m < snap.n()
    &&& connected(all_links(snap), v, m)
    &&& forall|w: int|
        0 <= w < snap.n() && #[trigger] connected(all_links(snap), v, w) ==> m <= w
}

/// Weakly connected components: for every node the smallest node of its component.
pub fn component_roots(snap: &CsrSnapshot) -> (out: Vec<usize>)
    requires
        snap.wf(),
    ensures
        out@.len() == snap.n(),
        forall|v: int|
            0 <= v < snap.n() ==> smallest_connected(*snap, v, (#[trigger] out@[v]) as int),
{
    let n: usize = snap.dense_to_id.len();
    let m: usize = snap.col_idx.len();
    let tails: Vec<usize> = slot_owners(snap);
    let mut sets: UnionFind = UnionFind::new(n);
    let mut k: usize = 0;
    while k < m
        invariant
            snap.wf(),
            n == snap.n(),
            m == snap.edges@.len(),
            tails@.len() == m,
            forall|j: int|
                0 <= j < m ==> (#[trigger] tails@[j]) < n && in_row(*snap, tails@[j] as int, j),
            sets.wf(),
            sets.parent@.len() == n,
            k <= m,
            sets.links@.len() == k,
            forall|j: int|
                0 <= j < k ==> #[trigger] sets.links@[j] == (
                    tails@[j] as int,
                    snap.col_idx@[j] as int,
                ),
        decreases m - k,
    {
        assert(tails@[k as int] < n);
        let joined: bool = sets.union(tails[k], snap.col_idx[k] as usize);
        k = k + 1;
    }
    let ghost links = sets.links@;
    proof {
        lemma_slots_are_edges(*snap, tails@, links);
    }
    let mut out: Vec<usize> = Vec::new();
    while out.len() < n
        invariant
            snap.wf(),
            n == snap.n(),
            sets.wf(),
            sets.parent@.len() == n,
            sets.links@ == links,
            forall|l: (int, int)|
                #[trigger] links.contains(l) <==> all_links(*snap).contains(l),
            out@.len() <= n,
            forall|v: int|
                0 <= v < out@.len() ==> smallest_connected(*snap, v, (#[trigger] out@[v]) as int),
        decreases n - out@.len(),
    {
        let v: usize = out.len();
        let r: usize = sets.find(v);
        proof {
            let all = all_links(*snap);
            let parent = sets.parent@;
            assert(root(parent, v as int) == r);
            assert(connected(links, v as int, root(parent, v as int)));
            lemma_connected_more(links, all, v as int, r as int);
            assert forall|w: int|
                0 <= w < snap.n() && #[trigger] connected(all, v as int, w) implies r <= w by {
                lemma_connected_more(all, links, v as int, w);
                lemma_same_root(sets, v as int, w);
                lemma_root_range(parent, w);
            }
        }
        out.push(r);
    }
    out
}

/// The slots of a snapshot hold its edges.
pub proof fn lemma_slots_are_edges(snap: CsrSnapshot, tails: Seq<usize>, links: Seq<(int, int)>)
    requires
        snap.wf(),
        tails.len() == snap.edges@.len(),
        links.len() == snap.edges@.len(),
        forall|k: int|
            0 <= k < tails.len() ==> (#[trigger] tails[k]) < snap.n() && in_row(
                snap,
                tails[k] as int,
                k,
            ),
        forall|k: int|
            0 <= k < links.len() ==> #[trigger] links[k] == (
                tails[k] as int,
                snap.col_idx@[k] as int,
            ),
    ensures
        forall|l: (int, int)| #[trigger] links.contains(l) <==> all_links(snap).contains(l),
{
    let all = all_links(snap);
    assert forall|l: (int, int)| #[trigger] links.contains(l) <==> all.contains(l) by {
        if links.contains(l) {
            let k = choose|k: int| 0 <= k < links.len() && links[k] == l;
            assert(tails[k] < snap.n());
            let i = crate::flow::lemma_slot_edge(snap, tails[k] as int, k);
            assert(all[i] == l);
        }
        if all.contains(l) {
            let i = choose|i: int| 0 <= i < all.len() && all[i] == l;
            let k = crate::flow::lemma_edge_slot(snap, i);
            let u = snap.edges@[i].src;
            assert(snap.row_ptr@[u + 1] <= snap.edges@.len());
            assert(tails[k] < snap.n());
            crate::flow::lemma_one_owner(snap, u, tails[k] as int, k);
            assert(links[k] == l);
        }
    }
}

} // verus!
