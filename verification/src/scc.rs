//! Strongly connected components, by Tarjan's algorithm.

use vstd::prelude::*;

use crate::csr::{leaving, CsrSnapshot, Edge};
use crate::finish::{enter, finish_order, tour, tour_all, tour_row, Tour};
use crate::simple_paths::lemma_distinct_bound;
use crate::sums::{bit, sum, upto};
use crate::traversal::{arc, grow, lemma_within_step, reachable, within};

verus! {

/// A node that the search has not met.
pub const UNMET: usize = usize::MAX;

/// Whether `v` can be reached from `u`.
pub open spec fn reach(edges: Seq<Edge>, u: int, v: int) -> bool {
    reachable(edges, set![u], v)
}

/// Whether two nodes can be reached from each other.
pub open spec fn strongly_connected(edges: Seq<Edge>, u: int, v: int) -> bool {
    reach(edges, u, v) && reach(edges, v, u)
}

pub proof fn lemma_reach_self(edges: Seq<Edge>, u: int)
    ensures
        reach(edges, u, u),
{
    assert(within(edges, set![u], 0).contains(u));
}

pub proof fn lemma_reach_arc(edges: Seq<Edge>, u: int, v: int, w: int)
    requires
        reach(edges, u, v),
        arc(edges, v, w),
    ensures
        reach(edges, u, w),
{
    let k = choose|k: nat| #[trigger] within(edges, set![u], k).contains(v);
    lemma_within_step(edges, set![u], v, w, k);
}

pub proof fn lemma_reach_transitive(edges: Seq<Edge>, u: int, v: int, w: int)
    requires
        reach(edges, u, v),
        reach(edges, v, w),
    ensures
        reach(edges, u, w),
{
    let k = choose|k: nat| #[trigger] within(edges, set![v], k).contains(w);
    lemma_reach_within(edges, u, v, w, k);
}

proof fn lemma_reach_within(edges: Seq<Edge>, u: int, v: int, w: int, k: nat)
    requires
        reach(edges, u, v),
        within(edges, set![v], k).contains(w),
    ensures
        reach(edges, u, w),
    decreases k,
{
    if k > 0 {
        let prev = within(edges, set![v], (k - 1) as nat);
        assert(grow(edges, prev).contains(w));
        if prev.contains(w) {
            lemma_reach_within(edges, u, v, w, (k - 1) as nat);
        } else {
            let x = choose|x: int| prev.contains(x) && #[trigger] arc(edges, x, w);
            lemma_reach_within(edges, u, v, x, (k - 1) as nat);
            lemma_reach_arc(edges, u, x, w);
        }
    }
}

/// What no arc leaves, no walk leaves.
proof fn lemma_closed(edges: Seq<Edge>, s: spec_fn(int) -> bool, u: int, v: int)
    requires
        forall|x: int, y: int| s(x) && #[trigger] arc(edges, x, y) ==> s(y),
        s(u),
        reach(edges, u, v),
    ensures
        s(v),
{
    let k = choose|k: nat| #[trigger] within(edges, set![u], k).contains(v);
    lemma_closed_within(edges, s, u, v, k);
}

proof fn lemma_closed_within(edges: Seq<Edge>, s: spec_fn(int) -> bool, u: int, v: int, k: nat)
    requires
        forall|x: int, y: int| s(x) && #[trigger] arc(edges, x, y) ==> s(y),
        s(u),
        within(edges, set![u], k).contains(v),
    ensures
        s(v),
    decreases k,
{
    if k > 0 {
        let prev = within(edges, set![u], (k - 1) as nat);
        assert(grow(edges, prev).contains(v));
        if prev.contains(v) {
            lemma_closed_within(edges, s, u, v, (k - 1) as nat);
        } else {
            let x = choose|x: int| prev.contains(x) && #[trigger] arc(edges, x, v);
            lemma_closed_within(edges, s, u, x, (k - 1) as nat);
            assert(arc(edges, x, v));
        }
    }
}

/// The state of the search.
struct Search {
    /// When each node was met.
    index: Vec<usize>,
    /// The earliest node on the stack that is known to be reached from each.
    low: Vec<usize>,
    /// The next slot of each node's row.
    cursor: Vec<usize>,
    /// Whether each node is on the stack.
    on_stack: Vec<bool>,
    /// The nodes that have been met and have no component yet.
    pending: Vec<usize>,
    /// The nodes whose rows are being walked.
    path: Vec<usize>,
    /// The component of each node that has one.
    component: Vec<u64>,
    next_index: usize,
    next_component: u64,
    /// The nodes in the order in which they were met.
    met: Ghost<Seq<int>>,
}

impl Search {
    spec fn visited(&self, v: int) -> bool {
        self.index@[v] != UNMET
    }

    /// The node is on the stack.
    spec fn on(&self, v: int) -> bool {
        self.on_stack@[v]
    }

    /// The node has its component.
    spec fn settled(&self, v: int) -> bool {
        self.index@[v] != UNMET && !self.on_stack@[v]
    }

    spec fn when(&self, v: int) -> int {
        self.index@[v] as int
    }

    /// Some node has this component.
    spec fn used(&self, c: int, n: int) -> bool {
        exists|v: int| 0 <= v < n && #[trigger] self.settled(v) && self.component@[v] == c
    }

    /// Every component so far has a node.
    spec fn numbered(&self, n: int) -> bool {
        forall|c: int| 0 <= c < self.next_component ==> #[trigger] self.used(c, n)
    }

    /// The nodes that had their component have it still.
    spec fn keeps_settled(&self, s: Search, n: int) -> bool {
        forall|v: int|
            0 <= v < n && #[trigger] self.settled(v) ==> s.settled(v) && s.component@[v]
                == self.component@[v]
    }

    /// The node at a position of the path.
    spec fn at(&self, i: int) -> int {
        self.path@[i] as int
    }

    #[verifier::opaque]
    spec fn shapes(&self, snap: CsrSnapshot) -> bool {
        let n = snap.n() as int;
        &&& snap.wf()
        &&& self.index@.len() == n
        &&& self.low@.len() == n
        &&& self.cursor@.len() == n
        &&& self.on_stack@.len() == n
        &&& self.component@.len() == n
        &&& self.met@.len() == self.next_index
        &&& self.next_component + self.pending@.len() <= self.next_index
        &&& forall|v: int|
            0 <= v < n ==> snap.row_ptr@[v] <= (#[trigger] self.cursor@[v]) <= snap.row_ptr@[v
                + 1]
        &&& forall|v: int| 0 <= v < n && #[trigger] self.on(v) ==> self.visited(v)
        &&& forall|i: int|
            0 <= i < self.met@.len() ==> 0 <= (#[trigger] self.met@[i]) < n && self.when(
                self.met@[i],
            ) == i
        &&& forall|v: int|
            0 <= v < n && #[trigger] self.visited(v) ==> self.when(v) < self.met@.len()
                && self.met@[self.when(v)] == v
    }

    #[verifier::opaque]
    spec fn stacks(&self, snap: CsrSnapshot) -> bool {
        let n = snap.n() as int;
        &&& forall|i: int|
            0 <= i < self.pending@.len() ==> (#[trigger] self.pending@[i]) < n && self.on(
                self.pending@[i] as int,
            )
        &&& forall|v: int|
            0 <= v < n && #[trigger] self.on(v) ==> self.pending@.contains(v as usize)
        &&& forall|i: int, j: int|
            0 <= i < j < self.pending@.len() ==> self.when(#[trigger] self.pending@[i] as int)
                < self.when(#[trigger] self.pending@[j] as int)
        &&& forall|i: int|
            0 <= i < self.path@.len() ==> (#[trigger] self.path@[i]) < n && self.on(
                self.path@[i] as int,
            )
        &&& forall|i: int, j: int|
            0 <= i < j < self.path@.len() ==> self.when(#[trigger] self.path@[i] as int)
                < self.when(#[trigger] self.path@[j] as int)
        &&& forall|v: int|
            0 <= v < n && #[trigger] self.visited(v) && !self.path@.contains(v as usize)
                ==> self.cursor@[v] == snap.row_ptr@[v + 1]
    }

    /// A node on the path reaches all that were put on the stack after it, and
    /// every node on the stack reaches an earlier one on the path, or itself.
    #[verifier::opaque]
    spec fn reaches(&self, snap: CsrSnapshot) -> bool {
        let n = snap.n() as int;
        &&& forall|i: int, v: int|
            #![trigger self.at(i), self.on(v)]
            0 <= i < self.path@.len() && 0 <= v < n && self.on(v) && self.when(self.at(i))
                <= self.when(v) ==> reach(snap.edges@, self.at(i), v)
        &&& forall|v: int| 0 <= v < n && #[trigger] self.on(v) ==> self.comes_back(snap, v)
    }

    #[verifier::opaque]
    spec fn comes_back(&self, snap: CsrSnapshot, v: int) -> bool {
        exists|i: int|
            0 <= i < self.path@.len() && self.when(#[trigger] self.at(i)) <= self.when(v) && reach(
                snap.edges@,
                v,
                self.at(i),
            )
    }

    /// The low mark of a path node is that of a node on the stack that it reaches.
    #[verifier::opaque]
    spec fn marks(&self, snap: CsrSnapshot) -> bool {
        forall|i: int|
            0 <= i < self.path@.len() ==> self.low@[#[trigger] self.at(i)] <= self.when(self.at(i))
                && self.lands(snap, self.at(i), self.low@[self.at(i)] as int)
    }

    #[verifier::opaque]
    spec fn lands(&self, snap: CsrSnapshot, u: int, low: int) -> bool {
        exists|y: int|
            0 <= y < snap.n() && #[trigger] self.on(y) && self.when(y) == low && reach(
                snap.edges@,
                u,
                y,
            )
    }

    /// Whether `v` was met under the path node at `i` and not under the next one.
    spec fn under(&self, i: int, v: int) -> bool {
        &&& self.when(self.at(i)) <= self.when(v)
        &&& i + 1 < self.path@.len() ==> self.when(v) < self.when(self.at(i + 1))
    }

    /// What has been walked leads to nodes that were met, and, under a path
    /// node, to none on the stack that is before its low mark.
    #[verifier::opaque]
    spec fn walked(&self, snap: CsrSnapshot) -> bool {
        let n = snap.n() as int;
        &&& forall|v: int, k: int|
            #![trigger self.cursor@[v], snap.col_idx@[k]]
            0 <= v < n && self.visited(v) && snap.row_ptr@[v] <= k < self.cursor@[v]
                ==> self.visited(snap.col_idx@[k] as int)
        &&& forall|i: int, v: int, k: int|
            #![trigger self.under(i, v), snap.col_idx@[k]]
            0 <= i < self.path@.len() && 0 <= v < n && self.on(v) && self.under(i, v)
                && snap.row_ptr@[v] <= k < self.cursor@[v] && self.on(snap.col_idx@[k] as int)
                ==> self.low@[self.at(i)] <= self.when(snap.col_idx@[k] as int)
    }

    /// The components so far: no arc leads out of them but to earlier ones, and
    /// they are what they should be.
    #[verifier::opaque]
    spec fn settles(&self, snap: CsrSnapshot) -> bool {
        let n = snap.n() as int;
        &&& forall|v: int| 0 <= v < n && #[trigger] self.settled(v) ==> self.component@[v]
            < self.next_component
        &&& forall|x: int, y: int|
            0 <= x < n && self.settled(x) && #[trigger] arc(snap.edges@, x, y) ==> self.settled(y)
                && self.component@[y] <= self.component@[x]
        &&& forall|x: int, y: int|
            #![trigger self.settled(x), self.settled(y)]
            0 <= x < n && 0 <= y < n && self.settled(x) && self.settled(y) ==> (
            self.component@[x] == self.component@[y] <==> strongly_connected(snap.edges@, x, y))
    }

    spec fn inv(&self, snap: CsrSnapshot) -> bool {
        &&& self.shapes(snap)
        &&& self.stacks(snap)
        &&& self.reaches(snap)
        &&& self.marks(snap)
        &&& self.walked(snap)
        &&& self.settles(snap)
    }

    /// The slots that have not been walked.
    spec fn left(&self, snap: CsrSnapshot) -> nat {
        sum(upto(snap.n()), rest(snap, self.cursor@))
    }
}

/// How much of a row has not been walked.
spec fn rest(snap: CsrSnapshot, cursor: Seq<usize>) -> spec_fn(int) -> nat {
    |v: int| (snap.row_ptr@[v + 1] - cursor[v]) as nat
}

proof fn got_back(snap: CsrSnapshot, s: Search, v: int) -> (i: int)
    requires
        s.comes_back(snap, v),
    ensures
        0 <= i < s.path@.len(),
        s.when(s.at(i)) <= s.when(v),
        reach(snap.edges@, v, s.at(i)),
{
    reveal(Search::comes_back);
    choose|i: int|
        0 <= i < s.path@.len() && s.when(#[trigger] s.at(i)) <= s.when(v) && reach(
            snap.edges@,
            v,
            s.at(i),
        )
}

proof fn put_back(snap: CsrSnapshot, s: Search, v: int, i: int)
    requires
        0 <= i < s.path@.len(),
        s.when(s.at(i)) <= s.when(v),
        reach(snap.edges@, v, s.at(i)),
    ensures
        s.comes_back(snap, v),
{
    reveal(Search::comes_back);
}

proof fn got_landing(snap: CsrSnapshot, s: Search, u: int, low: int) -> (y: int)
    requires
        s.lands(snap, u, low),
    ensures
        0 <= y < snap.n(),
        s.on(y),
        s.when(y) == low,
        reach(snap.edges@, u, y),
{
    reveal(Search::lands);
    choose|y: int|
        0 <= y < snap.n() && #[trigger] s.on(y) && s.when(y) == low && reach(snap.edges@, u, y)
}

proof fn put_landing(snap: CsrSnapshot, s: Search, u: int, y: int)
    requires
        0 <= y < snap.n(),
        s.on(y),
        reach(snap.edges@, u, y),
    ensures
        s.lands(snap, u, s.when(y)),
{
    reveal(Search::lands);
}

/// Walking one slot leaves one less.
proof fn lemma_less_left(snap: CsrSnapshot, before: Seq<usize>, now: Seq<usize>, u: int)
    requires
        snap.wf(),
        0 <= u < snap.n(),
        before.len() == snap.n(),
        before[u] < snap.row_ptr@[u + 1],
        now == before.update(u, (before[u] + 1) as usize),
    ensures
        sum(upto(snap.n()), rest(snap, now)) < sum(upto(snap.n()), rest(snap, before)),
{
    lemma_rest_below(snap, before, now, u, snap.n());
}

proof fn lemma_rest_below(snap: CsrSnapshot, before: Seq<usize>, now: Seq<usize>, u: int, m: nat)
    requires
        snap.wf(),
        0 <= u < snap.n(),
        m <= snap.n(),
        before.len() == snap.n(),
        before[u] < snap.row_ptr@[u + 1],
        now == before.update(u, (before[u] + 1) as usize),
    ensures
        u < m ==> sum(upto(m), rest(snap, now)) + 1 == sum(upto(m), rest(snap, before)),
        u >= m ==> sum(upto(m), rest(snap, now)) == sum(upto(m), rest(snap, before)),
    decreases m,
{
    if m > 0 {
        assert(upto(m).drop_last() =~= upto((m - 1) as nat));
        lemma_rest_below(snap, before, now, u, (m - 1) as nat);
        assert(upto(m).last() == m - 1);
    }
}

impl Search {
    /// There are no more nodes that were met than nodes.
    proof fn lemma_met(&self, snap: CsrSnapshot)
        requires
            self.shapes(snap),
        ensures
            self.next_index <= snap.n(),
            (exists|v: int| 0 <= v < snap.n() && !#[trigger] self.visited(v)) ==> self.next_index
                < snap.n(),
    {
        reveal(Search::shapes);
        let n = snap.n();
        let s = self.met@;
        assert(s.no_duplicates()) by {
            assert forall|i: int, j: int|
                0 <= i < s.len() && 0 <= j < s.len() && i != j implies s[i] != s[j] by {
                assert(self.when(s[i]) == i && self.when(s[j]) == j);
            }
        }
        lemma_distinct_bound(s, n);
        if exists|v: int| 0 <= v < n && !#[trigger] self.visited(v) {
            let v = choose|v: int| 0 <= v < n && !#[trigger] self.visited(v);
            let t = s.push(v);
            assert(t.no_duplicates()) by {
                assert forall|i: int, j: int|
                    0 <= i < t.len() && 0 <= j < t.len() && i != j implies t[i] != t[j] by {
                    if i < s.len() {
                        assert(self.when(s[i]) == i);
                    }
                    if j < s.len() {
                        assert(self.when(s[j]) == j);
                    }
                }
            }
            lemma_distinct_bound(t, n);
        }
    }
}

/// One node is put on the path and the stack, and nothing else changes.
spec fn discovered(was: Search, s: Search, v: usize) -> bool {
    &&& s.index@ == was.index@.update(v as int, was.next_index)
    &&& s.low@ == was.low@.update(v as int, was.next_index)
    &&& s.cursor == was.cursor
    &&& s.on_stack@ == was.on_stack@.update(v as int, true)
    &&& s.pending@ == was.pending@.push(v)
    &&& s.path@ == was.path@.push(v)
    &&& s.component == was.component
    &&& s.next_index == was.next_index + 1
    &&& s.next_component == was.next_component
    &&& s.met@ == was.met@.push(v as int)
}

/// The mark of one node changes, and nothing else.
spec fn marked_anew(was: Search, s: Search, u: usize, low: usize) -> bool {
    &&& s.low@ == was.low@.update(u as int, low)
    &&& s.index == was.index
    &&& s.cursor == was.cursor
    &&& s.on_stack == was.on_stack
    &&& s.pending == was.pending
    &&& s.path == was.path
    &&& s.component == was.component
    &&& s.next_index == was.next_index
    &&& s.next_component == was.next_component
    &&& s.met == was.met
}

/// One slot is walked, and nothing else changes.
spec fn advanced(was: Search, s: Search, u: usize) -> bool {
    &&& s.cursor@ == was.cursor@.update(u as int, (was.cursor@[u as int] + 1) as usize)
    &&& s.index == was.index
    &&& s.low == was.low
    &&& s.on_stack == was.on_stack
    &&& s.pending == was.pending
    &&& s.path == was.path
    &&& s.component == was.component
    &&& s.next_index == was.next_index
    &&& s.next_component == was.next_component
    &&& s.met == was.met
}

proof fn lemma_discover_shapes(snap: CsrSnapshot, was: Search, s: Search, v: usize)
    requires
        was.inv(snap),
        v < snap.n(),
        was.next_index < snap.n(),
        !was.visited(v as int),
        was.path@.len() > 0 ==> arc(snap.edges@, was.at(was.path@.len() - 1), v as int),
        was.path@.len() == 0 ==> forall|x: int| 0 <= x < snap.n() ==> !#[trigger] was.on(x),
        was.cursor@[v as int] == snap.row_ptr@[v as int],
        discovered(was, s, v),
    ensures
        s.shapes(snap),
{
    reveal(Search::shapes);
    let n = snap.n() as int;
    let edges = snap.edges@;
    let now = was.next_index;
    let last = was.path@.len() as int;
    assert forall|x: int| 0 <= x < n && x != v implies #[trigger] s.on(x) == was.on(x) && s.when(x)
        == was.when(x) && s.visited(x) == was.visited(x) && s.settled(x) == was.settled(x) by {}
    assert(s.on(v as int) && s.when(v as int) == now);
    assert forall|x: int| 0 <= x < n && was.visited(x) implies #[trigger] was.when(x) < now by {
        assert(was.visited(x));
    }
    assert forall|x: int| 0 <= x < n && #[trigger] s.visited(x) implies s.when(x)
        < s.met@.len() && s.met@[s.when(x)] == x by {
        if x != v {
            assert(was.visited(x));
        }
    }
    assert forall|i: int| 0 <= i < s.met@.len() implies 0 <= (#[trigger] s.met@[i]) < n
        && s.when(s.met@[i]) == i by {
        if i < was.met@.len() {
            assert(s.met@[i] == was.met@[i]);
            assert(was.when(was.met@[i]) == i);
        }
    }
    assert forall|x: int| 0 <= x < n && #[trigger] s.on(x) implies s.visited(x) by {
        if x != v {
            assert(was.on(x));
        }
    }
}

proof fn lemma_discover_stacks(snap: CsrSnapshot, was: Search, s: Search, v: usize)
    requires
        was.inv(snap),
        v < snap.n(),
        was.next_index < snap.n(),
        !was.visited(v as int),
        was.path@.len() > 0 ==> arc(snap.edges@, was.at(was.path@.len() - 1), v as int),
        was.path@.len() == 0 ==> forall|x: int| 0 <= x < snap.n() ==> !#[trigger] was.on(x),
        was.cursor@[v as int] == snap.row_ptr@[v as int],
        discovered(was, s, v),
    ensures
        s.stacks(snap),
{
    reveal(Search::shapes);
    reveal(Search::stacks);
    let n = snap.n() as int;
    let edges = snap.edges@;
    let now = was.next_index;
    let last = was.path@.len() as int;
    assert forall|x: int| 0 <= x < n && x != v implies #[trigger] s.on(x) == was.on(x) && s.when(x)
        == was.when(x) && s.visited(x) == was.visited(x) && s.settled(x) == was.settled(x) by {}
    assert(s.on(v as int) && s.when(v as int) == now);
    assert forall|x: int| 0 <= x < n && was.visited(x) implies #[trigger] was.when(x) < now by {
        assert(was.visited(x));
    }
    assert forall|i: int| 0 <= i < s.pending@.len() implies (#[trigger] s.pending@[i])
        < n && s.on(s.pending@[i] as int) by {
        if i < was.pending@.len() {
            assert(s.pending@[i] == was.pending@[i]);
            assert(was.on(was.pending@[i] as int));
        }
    }
    assert forall|x: int| 0 <= x < n && #[trigger] s.on(x) implies s.pending@.contains(
        x as usize,
    ) by {
        if x != v {
            assert(was.on(x));
            let j = was.pending@.index_of(x as usize);
            assert(s.pending@[j] == x as usize);
        } else {
            assert(s.pending@[was.pending@.len() as int] == v);
        }
    }
    assert forall|i: int, j: int| 0 <= i < j < s.pending@.len() implies s.when(
        #[trigger] s.pending@[i] as int,
    ) < s.when(#[trigger] s.pending@[j] as int) by {
        assert(s.pending@[i] == was.pending@[i]);
        assert(was.on(was.pending@[i] as int));
        if j < was.pending@.len() {
            assert(s.pending@[j] == was.pending@[j]);
            assert(was.on(was.pending@[j] as int));
        }
    }
    assert forall|i: int| 0 <= i < s.path@.len() implies (#[trigger] s.path@[i]) < n
        && s.on(s.path@[i] as int) by {
        if i < last {
            assert(s.path@[i] == was.path@[i]);
            assert(was.on(was.path@[i] as int));
        }
    }
    assert forall|i: int, j: int| 0 <= i < j < s.path@.len() implies s.when(
        #[trigger] s.path@[i] as int,
    ) < s.when(#[trigger] s.path@[j] as int) by {
        assert(s.path@[i] == was.path@[i]);
        assert(was.on(was.path@[i] as int));
        if j < last {
            assert(s.path@[j] == was.path@[j]);
            assert(was.on(was.path@[j] as int));
        }
    }
    assert forall|x: int|
        0 <= x < n && #[trigger] s.visited(x) && !s.path@.contains(
            x as usize,
        ) implies s.cursor@[x] == snap.row_ptr@[x + 1] by {
        if x == v {
            assert(s.path@[last] == v);
        } else {
            assert(was.visited(x));
            if was.path@.contains(x as usize) {
                let j = was.path@.index_of(x as usize);
                assert(s.path@[j] == x as usize);
            }
        }
    }
}

proof fn lemma_discover_reaches(snap: CsrSnapshot, was: Search, s: Search, v: usize)
    requires
        was.inv(snap),
        v < snap.n(),
        was.next_index < snap.n(),
        !was.visited(v as int),
        was.path@.len() > 0 ==> arc(snap.edges@, was.at(was.path@.len() - 1), v as int),
        was.path@.len() == 0 ==> forall|x: int| 0 <= x < snap.n() ==> !#[trigger] was.on(x),
        was.cursor@[v as int] == snap.row_ptr@[v as int],
        discovered(was, s, v),
    ensures
        s.reaches(snap),
{
    reveal(Search::shapes);
    reveal(Search::stacks);
    reveal(Search::reaches);
    let n = snap.n() as int;
    let edges = snap.edges@;
    let now = was.next_index;
    let last = was.path@.len() as int;
    assert forall|x: int| 0 <= x < n && x != v implies #[trigger] s.on(x) == was.on(x) && s.when(x)
        == was.when(x) && s.visited(x) == was.visited(x) && s.settled(x) == was.settled(x) by {}
    assert(s.on(v as int) && s.when(v as int) == now);
    assert forall|x: int| 0 <= x < n && was.visited(x) implies #[trigger] was.when(x) < now by {
        assert(was.visited(x));
    }
    assert forall|i: int| 0 <= i < last implies #[trigger] s.at(i) == was.at(i) && was.on(was.at(i))
        && was.at(i) < n && 0 <= was.at(i) && s.at(i) != v by {
        assert(s.path@[i] == was.path@[i]);
        assert(was.on(was.path@[i] as int));
    }
    assert(s.at(last) == v);
    assert forall|i: int, x: int|
        #![trigger s.at(i), s.on(x)]
        0 <= i < s.path@.len() && 0 <= x < n && s.on(x) && s.when(s.at(i))
            <= s.when(x) implies reach(edges, s.at(i), x) by {
        if i == last {
            if x != v {
                assert(was.on(x));
            }
            lemma_reach_self(edges, v as int);
        } else if x == v {
            let top = was.at(last - 1);
            assert(was.on(was.at(last - 1)));
            assert(was.when(was.at(i)) <= was.when(top)) by {
                if i < last - 1 {
                    assert(was.when(was.path@[i] as int) < was.when(
                        was.path@[last - 1] as int,
                    ));
                }
            }
            assert(reach(edges, was.at(i), top));
            lemma_reach_arc(edges, was.at(i), top, v as int);
        } else {
            assert(was.on(x));
            assert(reach(edges, was.at(i), x));
        }
    }
    assert forall|x: int| 0 <= x < n && #[trigger] s.on(x) implies s.comes_back(
        snap,
        x,
    ) by {
        if x == v {
            lemma_reach_self(edges, v as int);
            assert(s.when(s.at(last)) <= s.when(x));
            put_back(snap, s, x, last);
        } else {
            assert(was.on(x));
            assert(was.comes_back(snap, x));
            let i = got_back(snap, was, x);
            assert(s.at(i) == was.at(i));
            put_back(snap, s, x, i);
        }
    }
}

proof fn lemma_discover_marks(snap: CsrSnapshot, was: Search, s: Search, v: usize)
    requires
        was.inv(snap),
        v < snap.n(),
        was.next_index < snap.n(),
        !was.visited(v as int),
        was.path@.len() > 0 ==> arc(snap.edges@, was.at(was.path@.len() - 1), v as int),
        was.path@.len() == 0 ==> forall|x: int| 0 <= x < snap.n() ==> !#[trigger] was.on(x),
        was.cursor@[v as int] == snap.row_ptr@[v as int],
        discovered(was, s, v),
    ensures
        s.marks(snap),
{
    reveal(Search::shapes);
    reveal(Search::stacks);
    reveal(Search::marks);
    let n = snap.n() as int;
    let edges = snap.edges@;
    let now = was.next_index;
    let last = was.path@.len() as int;
    assert forall|x: int| 0 <= x < n && x != v implies #[trigger] s.on(x) == was.on(x) && s.when(x)
        == was.when(x) && s.visited(x) == was.visited(x) && s.settled(x) == was.settled(x) by {}
    assert(s.on(v as int) && s.when(v as int) == now);
    assert forall|x: int| 0 <= x < n && was.visited(x) implies #[trigger] was.when(x) < now by {
        assert(was.visited(x));
    }
    assert forall|i: int| 0 <= i < last implies #[trigger] s.at(i) == was.at(i) && was.on(was.at(i))
        && was.at(i) < n && 0 <= was.at(i) && s.at(i) != v by {
        assert(s.path@[i] == was.path@[i]);
        assert(was.on(was.path@[i] as int));
    }
    assert(s.at(last) == v);
    assert forall|i: int| 0 <= i < s.path@.len() implies s.low@[#[trigger] s.at(i)]
        <= s.when(s.at(i)) && s.lands(snap, s.at(i), s.low@[s.at(i)] as int) by {
        if i == last {
            lemma_reach_self(edges, v as int);
            assert(s.on(v as int));
            put_landing(snap, s, s.at(i), v as int);
        } else {
            assert(s.at(i) == was.at(i));
            assert(was.lands(snap, was.at(i), was.low@[was.at(i)] as int));
            let y = got_landing(snap, was, was.at(i), was.low@[was.at(i)] as int);
            assert(s.on(y));
            put_landing(snap, s, s.at(i), y);
        }
    }
}

proof fn lemma_discover_walked(snap: CsrSnapshot, was: Search, s: Search, v: usize)
    requires
        was.inv(snap),
        v < snap.n(),
        was.next_index < snap.n(),
        !was.visited(v as int),
        was.path@.len() > 0 ==> arc(snap.edges@, was.at(was.path@.len() - 1), v as int),
        was.path@.len() == 0 ==> forall|x: int| 0 <= x < snap.n() ==> !#[trigger] was.on(x),
        was.cursor@[v as int] == snap.row_ptr@[v as int],
        discovered(was, s, v),
    ensures
        s.walked(snap),
{
    reveal(Search::shapes);
    reveal(Search::stacks);
    reveal(Search::walked);
    let n = snap.n() as int;
    let edges = snap.edges@;
    let now = was.next_index;
    let last = was.path@.len() as int;
    assert forall|x: int| 0 <= x < n && x != v implies #[trigger] s.on(x) == was.on(x) && s.when(x)
        == was.when(x) && s.visited(x) == was.visited(x) && s.settled(x) == was.settled(x) by {}
    assert(s.on(v as int) && s.when(v as int) == now);
    assert forall|x: int| 0 <= x < n && was.visited(x) implies #[trigger] was.when(x) < now by {
        assert(was.visited(x));
    }
    assert forall|i: int| 0 <= i < last implies #[trigger] s.at(i) == was.at(i) && was.on(was.at(i))
        && was.at(i) < n && 0 <= was.at(i) && s.at(i) != v by {
        assert(s.path@[i] == was.path@[i]);
        assert(was.on(was.path@[i] as int));
    }
    assert(s.at(last) == v);
    assert forall|x: int, k: int|
        #![trigger s.cursor@[x], snap.col_idx@[k]]
        0 <= x < n && s.visited(x) && snap.row_ptr@[x] <= k
            < s.cursor@[x] implies s.visited(snap.col_idx@[k] as int) by {
        if x != v {
            assert(was.visited(x));
            assert(was.cursor@[x] == s.cursor@[x]);
            assert(was.visited(snap.col_idx@[k] as int));
        }
    }
    assert forall|i: int, x: int, k: int|
        #![trigger s.under(i, x), snap.col_idx@[k]]
        0 <= i < s.path@.len() && 0 <= x < n && s.on(x) && s.under(i, x)
            && snap.row_ptr@[x] <= k < s.cursor@[x] && s.on(
            snap.col_idx@[k] as int,
        ) implies s.low@[s.at(i)] <= s.when(snap.col_idx@[k] as int) by {
        let y = snap.col_idx@[k] as int;
        assert(x != v);
        assert(was.on(x) && was.visited(x));
        assert(was.cursor@[x] == s.cursor@[x]);
        assert(was.visited(y));
        assert(i < last);
        assert(s.at(i) == was.at(i));
        assert(was.under(i, x)) by {
            if i + 1 < last {
                assert(s.at(i + 1) == was.at(i + 1));
            }
        }
        assert(y != v);
        assert(was.on(y));
    }
}

proof fn lemma_discover_settles(snap: CsrSnapshot, was: Search, s: Search, v: usize)
    requires
        was.inv(snap),
        v < snap.n(),
        was.next_index < snap.n(),
        !was.visited(v as int),
        was.path@.len() > 0 ==> arc(snap.edges@, was.at(was.path@.len() - 1), v as int),
        was.path@.len() == 0 ==> forall|x: int| 0 <= x < snap.n() ==> !#[trigger] was.on(x),
        was.cursor@[v as int] == snap.row_ptr@[v as int],
        discovered(was, s, v),
    ensures
        s.settles(snap),
{
    reveal(Search::shapes);
    reveal(Search::settles);
    let n = snap.n() as int;
    let edges = snap.edges@;
    let now = was.next_index;
    let last = was.path@.len() as int;
    assert forall|x: int| 0 <= x < n && x != v implies #[trigger] s.on(x) == was.on(x) && s.when(x)
        == was.when(x) && s.visited(x) == was.visited(x) && s.settled(x) == was.settled(x) by {}
    assert(s.on(v as int) && s.when(v as int) == now);
    assert forall|x: int| 0 <= x < n && was.visited(x) implies #[trigger] was.when(x) < now by {
        assert(was.visited(x));
    }
    assert forall|x: int, y: int|
        0 <= x < n && s.settled(x) && #[trigger] arc(edges, x, y) implies s.settled(y)
        && s.component@[y] <= s.component@[x] by {
        assert(was.settled(x));
        assert(was.settled(y));
        lemma_arc_in_range(snap, x, y);
        assert(y != v);
    }
    assert forall|x: int, y: int|
        #![trigger s.settled(x), s.settled(y)]
        0 <= x < n && 0 <= y < n && s.settled(x) && s.settled(y) implies (
    s.component@[x] == s.component@[y] <==> strongly_connected(edges, x, y)) by {
        assert(was.settled(x) && was.settled(y));
    }
    assert forall|x: int| 0 <= x < n && #[trigger] s.settled(x) implies s.component@[x]
        < s.next_component by {
        assert(was.settled(x));
    }
}

proof fn lemma_lower_shapes(snap: CsrSnapshot, was: Search, s: Search, u: usize, v: usize, low: usize)
    requires
        was.inv(snap),
        was.path@.len() > 0,
        u == was.path@.last(),
        u < snap.n(),
        v < snap.n(),
        was.on(v as int),
        reach(snap.edges@, u as int, v as int),
        marked_anew(was, s, u, low),
        low == was.low@[u as int] || (low == was.index@[v as int] && low < was.low@[u as int]),
    ensures
        s.shapes(snap),
{
    reveal(Search::shapes);
    let n = snap.n() as int;
    assert forall|x: int|
        #![trigger s.visited(x)]
        #![trigger s.on(x)]
        #![trigger s.when(x)]
        #![trigger s.settled(x)]
        s.visited(x) == was.visited(x) && s.on(x) == was.on(x) && s.when(x) == was.when(x)
            && s.settled(x) == was.settled(x) by {}
    assert forall|i: int| #[trigger] s.at(i) == was.at(i) by {}
}

proof fn lemma_lower_stacks(snap: CsrSnapshot, was: Search, s: Search, u: usize, v: usize, low: usize)
    requires
        was.inv(snap),
        was.path@.len() > 0,
        u == was.path@.last(),
        u < snap.n(),
        v < snap.n(),
        was.on(v as int),
        reach(snap.edges@, u as int, v as int),
        marked_anew(was, s, u, low),
        low == was.low@[u as int] || (low == was.index@[v as int] && low < was.low@[u as int]),
    ensures
        s.stacks(snap),
{
    reveal(Search::shapes);
    reveal(Search::stacks);
    let n = snap.n() as int;
    assert forall|x: int|
        #![trigger s.visited(x)]
        #![trigger s.on(x)]
        #![trigger s.when(x)]
        #![trigger s.settled(x)]
        s.visited(x) == was.visited(x) && s.on(x) == was.on(x) && s.when(x) == was.when(x)
            && s.settled(x) == was.settled(x) by {}
    assert forall|i: int| #[trigger] s.at(i) == was.at(i) by {}
}

proof fn lemma_lower_reaches(snap: CsrSnapshot, was: Search, s: Search, u: usize, v: usize, low: usize)
    requires
        was.inv(snap),
        was.path@.len() > 0,
        u == was.path@.last(),
        u < snap.n(),
        v < snap.n(),
        was.on(v as int),
        reach(snap.edges@, u as int, v as int),
        marked_anew(was, s, u, low),
        low == was.low@[u as int] || (low == was.index@[v as int] && low < was.low@[u as int]),
    ensures
        s.reaches(snap),
{
    reveal(Search::shapes);
    reveal(Search::reaches);
    let n = snap.n() as int;
    assert forall|x: int|
        #![trigger s.visited(x)]
        #![trigger s.on(x)]
        #![trigger s.when(x)]
        #![trigger s.settled(x)]
        s.visited(x) == was.visited(x) && s.on(x) == was.on(x) && s.when(x) == was.when(x)
            && s.settled(x) == was.settled(x) by {}
    assert forall|i: int| #[trigger] s.at(i) == was.at(i) by {}
    assert forall|i: int, x: int|
        #![trigger s.at(i), s.on(x)]
        0 <= i < s.path@.len() && 0 <= x < n && s.on(x) && s.when(s.at(i))
            <= s.when(x) implies reach(snap.edges@, s.at(i), x) by {
        assert(was.at(i) == s.at(i) && was.on(x));
    }
    assert forall|x: int| 0 <= x < n && #[trigger] s.on(x) implies s.comes_back(
        snap,
        x,
    ) by {
        assert(was.on(x));
        assert(was.comes_back(snap, x));
        let i = got_back(snap, was, x);
        assert(s.at(i) == was.at(i));
        put_back(snap, s, x, i);
    }
}

proof fn lemma_lower_marks(snap: CsrSnapshot, was: Search, s: Search, u: usize, v: usize, low: usize)
    requires
        was.inv(snap),
        was.path@.len() > 0,
        u == was.path@.last(),
        u < snap.n(),
        v < snap.n(),
        was.on(v as int),
        reach(snap.edges@, u as int, v as int),
        marked_anew(was, s, u, low),
        low == was.low@[u as int] || (low == was.index@[v as int] && low < was.low@[u as int]),
    ensures
        s.marks(snap),
{
    reveal(Search::shapes);
    reveal(Search::stacks);
    reveal(Search::marks);
    let n = snap.n() as int;
    assert forall|x: int|
        #![trigger s.visited(x)]
        #![trigger s.on(x)]
        #![trigger s.when(x)]
        #![trigger s.settled(x)]
        s.visited(x) == was.visited(x) && s.on(x) == was.on(x) && s.when(x) == was.when(x)
            && s.settled(x) == was.settled(x) by {}
    assert forall|i: int| #[trigger] s.at(i) == was.at(i) by {}
    assert(was.at(was.path@.len() - 1) == u);
    assert forall|i: int| 0 <= i < s.path@.len() implies s.low@[#[trigger] s.at(i)]
        <= s.when(s.at(i)) && s.lands(snap, s.at(i), s.low@[s.at(i)] as int) by {
        assert(was.at(i) == s.at(i));
        assert(was.lands(snap, was.at(i), was.low@[was.at(i)] as int));
        if s.low@[s.at(i)] == was.low@[s.at(i)] {
            let y = got_landing(snap, was, was.at(i), was.low@[was.at(i)] as int);
            assert(s.on(y));
            put_landing(snap, s, s.at(i), y);
        } else {
            assert(s.on(v as int));
            put_landing(snap, s, s.at(i), v as int);
        }
    }
}

proof fn lemma_lower_walked(snap: CsrSnapshot, was: Search, s: Search, u: usize, v: usize, low: usize)
    requires
        was.inv(snap),
        was.path@.len() > 0,
        u == was.path@.last(),
        u < snap.n(),
        v < snap.n(),
        was.on(v as int),
        reach(snap.edges@, u as int, v as int),
        marked_anew(was, s, u, low),
        low == was.low@[u as int] || (low == was.index@[v as int] && low < was.low@[u as int]),
    ensures
        s.walked(snap),
{
    reveal(Search::shapes);
    reveal(Search::stacks);
    reveal(Search::walked);
    let n = snap.n() as int;
    assert forall|x: int|
        #![trigger s.visited(x)]
        #![trigger s.on(x)]
        #![trigger s.when(x)]
        #![trigger s.settled(x)]
        s.visited(x) == was.visited(x) && s.on(x) == was.on(x) && s.when(x) == was.when(x)
            && s.settled(x) == was.settled(x) by {}
    assert forall|i: int| #[trigger] s.at(i) == was.at(i) by {}
    assert forall|i: int| 0 <= i < was.path@.len() implies s.low@[#[trigger] was.at(i)] <= was.low@[was.at(i)] by {
        assert(was.on(was.path@[i] as int));
    }
    assert forall|i: int, x: int, k: int|
        #![trigger s.under(i, x), snap.col_idx@[k]]
        0 <= i < s.path@.len() && 0 <= x < n && s.on(x) && s.under(i, x)
            && snap.row_ptr@[x] <= k < s.cursor@[x] && s.on(
            snap.col_idx@[k] as int,
        ) implies s.low@[s.at(i)] <= s.when(snap.col_idx@[k] as int) by {
        assert(was.under(i, x)) by {
            assert(was.at(i) == s.at(i) && was.at(i + 1) == s.at(i + 1));
        }
    }
}

proof fn lemma_lower_settles(snap: CsrSnapshot, was: Search, s: Search, u: usize, v: usize, low: usize)
    requires
        was.inv(snap),
        was.path@.len() > 0,
        u == was.path@.last(),
        u < snap.n(),
        v < snap.n(),
        was.on(v as int),
        reach(snap.edges@, u as int, v as int),
        marked_anew(was, s, u, low),
        low == was.low@[u as int] || (low == was.index@[v as int] && low < was.low@[u as int]),
    ensures
        s.settles(snap),
{
    reveal(Search::shapes);
    reveal(Search::settles);
    let n = snap.n() as int;
    assert forall|x: int|
        #![trigger s.visited(x)]
        #![trigger s.on(x)]
        #![trigger s.when(x)]
        #![trigger s.settled(x)]
        s.visited(x) == was.visited(x) && s.on(x) == was.on(x) && s.when(x) == was.when(x)
            && s.settled(x) == was.settled(x) by {}
    assert forall|i: int| #[trigger] s.at(i) == was.at(i) by {}
}

proof fn lemma_advance_shapes(snap: CsrSnapshot, was: Search, s: Search, u: usize)
    requires
        was.inv(snap),
        u < snap.n(),
        was.on(u as int),
        was.cursor@[u as int] < snap.row_ptr@[u + 1],
        was.visited(snap.col_idx@[was.cursor@[u as int] as int] as int),
        forall|i: int|
            0 <= i < was.path@.len() && #[trigger] was.under(i, u as int) && was.on(
                snap.col_idx@[was.cursor@[u as int] as int] as int,
            ) ==> was.low@[was.at(i)] <= was.when(
                snap.col_idx@[was.cursor@[u as int] as int] as int,
            ),
        advanced(was, s, u),
    ensures
        s.shapes(snap),
{
    reveal(Search::shapes);
    let n = snap.n() as int;
    assert forall|x: int|
        #![trigger s.visited(x)]
        #![trigger s.on(x)]
        #![trigger s.when(x)]
        #![trigger s.settled(x)]
        s.visited(x) == was.visited(x) && s.on(x) == was.on(x) && s.when(x) == was.when(x)
            && s.settled(x) == was.settled(x) by {}
    assert forall|i: int| #[trigger] s.at(i) == was.at(i) by {}
}

proof fn lemma_advance_stacks(snap: CsrSnapshot, was: Search, s: Search, u: usize)
    requires
        was.inv(snap),
        u < snap.n(),
        was.on(u as int),
        was.cursor@[u as int] < snap.row_ptr@[u + 1],
        was.visited(snap.col_idx@[was.cursor@[u as int] as int] as int),
        forall|i: int|
            0 <= i < was.path@.len() && #[trigger] was.under(i, u as int) && was.on(
                snap.col_idx@[was.cursor@[u as int] as int] as int,
            ) ==> was.low@[was.at(i)] <= was.when(
                snap.col_idx@[was.cursor@[u as int] as int] as int,
            ),
        advanced(was, s, u),
    ensures
        s.stacks(snap),
{
    reveal(Search::shapes);
    reveal(Search::stacks);
    let n = snap.n() as int;
    assert forall|x: int|
        #![trigger s.visited(x)]
        #![trigger s.on(x)]
        #![trigger s.when(x)]
        #![trigger s.settled(x)]
        s.visited(x) == was.visited(x) && s.on(x) == was.on(x) && s.when(x) == was.when(x)
            && s.settled(x) == was.settled(x) by {}
    assert forall|i: int| #[trigger] s.at(i) == was.at(i) by {}
    assert forall|x: int|
        0 <= x < n && #[trigger] s.visited(x) && !s.path@.contains(
            x as usize,
        ) implies s.cursor@[x] == snap.row_ptr@[x + 1] by {
        assert(was.visited(x));
    }
}

proof fn lemma_advance_reaches(snap: CsrSnapshot, was: Search, s: Search, u: usize)
    requires
        was.inv(snap),
        u < snap.n(),
        was.on(u as int),
        was.cursor@[u as int] < snap.row_ptr@[u + 1],
        was.visited(snap.col_idx@[was.cursor@[u as int] as int] as int),
        forall|i: int|
            0 <= i < was.path@.len() && #[trigger] was.under(i, u as int) && was.on(
                snap.col_idx@[was.cursor@[u as int] as int] as int,
            ) ==> was.low@[was.at(i)] <= was.when(
                snap.col_idx@[was.cursor@[u as int] as int] as int,
            ),
        advanced(was, s, u),
    ensures
        s.reaches(snap),
{
    reveal(Search::shapes);
    reveal(Search::reaches);
    let n = snap.n() as int;
    assert forall|x: int|
        #![trigger s.visited(x)]
        #![trigger s.on(x)]
        #![trigger s.when(x)]
        #![trigger s.settled(x)]
        s.visited(x) == was.visited(x) && s.on(x) == was.on(x) && s.when(x) == was.when(x)
            && s.settled(x) == was.settled(x) by {}
    assert forall|i: int| #[trigger] s.at(i) == was.at(i) by {}
    assert forall|i: int, x: int|
        #![trigger s.at(i), s.on(x)]
        0 <= i < s.path@.len() && 0 <= x < n && s.on(x) && s.when(s.at(i))
            <= s.when(x) implies reach(snap.edges@, s.at(i), x) by {
        assert(was.at(i) == s.at(i) && was.on(x));
    }
    assert forall|x: int| 0 <= x < n && #[trigger] s.on(x) implies s.comes_back(
        snap,
        x,
    ) by {
        assert(was.on(x));
        assert(was.comes_back(snap, x));
        let i = got_back(snap, was, x);
        assert(s.at(i) == was.at(i));
        put_back(snap, s, x, i);
    }
}

proof fn lemma_advance_marks(snap: CsrSnapshot, was: Search, s: Search, u: usize)
    requires
        was.inv(snap),
        u < snap.n(),
        was.on(u as int),
        was.cursor@[u as int] < snap.row_ptr@[u + 1],
        was.visited(snap.col_idx@[was.cursor@[u as int] as int] as int),
        forall|i: int|
            0 <= i < was.path@.len() && #[trigger] was.under(i, u as int) && was.on(
                snap.col_idx@[was.cursor@[u as int] as int] as int,
            ) ==> was.low@[was.at(i)] <= was.when(
                snap.col_idx@[was.cursor@[u as int] as int] as int,
            ),
        advanced(was, s, u),
    ensures
        s.marks(snap),
{
    reveal(Search::shapes);
    reveal(Search::marks);
    let n = snap.n() as int;
    assert forall|x: int|
        #![trigger s.visited(x)]
        #![trigger s.on(x)]
        #![trigger s.when(x)]
        #![trigger s.settled(x)]
        s.visited(x) == was.visited(x) && s.on(x) == was.on(x) && s.when(x) == was.when(x)
            && s.settled(x) == was.settled(x) by {}
    assert forall|i: int| #[trigger] s.at(i) == was.at(i) by {}
    assert forall|i: int| 0 <= i < s.path@.len() implies s.low@[#[trigger] s.at(i)]
        <= s.when(s.at(i)) && s.lands(snap, s.at(i), s.low@[s.at(i)] as int) by {
        assert(was.at(i) == s.at(i));
        assert(was.lands(snap, was.at(i), was.low@[was.at(i)] as int));
        let y = got_landing(snap, was, was.at(i), was.low@[was.at(i)] as int);
        assert(s.on(y));
        put_landing(snap, s, s.at(i), y);
    }
}

proof fn lemma_advance_walked(snap: CsrSnapshot, was: Search, s: Search, u: usize)
    requires
        was.inv(snap),
        u < snap.n(),
        was.on(u as int),
        was.cursor@[u as int] < snap.row_ptr@[u + 1],
        was.visited(snap.col_idx@[was.cursor@[u as int] as int] as int),
        forall|i: int|
            0 <= i < was.path@.len() && #[trigger] was.under(i, u as int) && was.on(
                snap.col_idx@[was.cursor@[u as int] as int] as int,
            ) ==> was.low@[was.at(i)] <= was.when(
                snap.col_idx@[was.cursor@[u as int] as int] as int,
            ),
        advanced(was, s, u),
    ensures
        s.walked(snap),
{
    reveal(Search::shapes);
    reveal(Search::walked);
    let n = snap.n() as int;
    assert forall|x: int|
        #![trigger s.visited(x)]
        #![trigger s.on(x)]
        #![trigger s.when(x)]
        #![trigger s.settled(x)]
        s.visited(x) == was.visited(x) && s.on(x) == was.on(x) && s.when(x) == was.when(x)
            && s.settled(x) == was.settled(x) by {}
    assert forall|i: int| #[trigger] s.at(i) == was.at(i) by {}
    assert forall|x: int, k: int|
        #![trigger s.cursor@[x], snap.col_idx@[k]]
        0 <= x < n && s.visited(x) && snap.row_ptr@[x] <= k
            < s.cursor@[x] implies s.visited(snap.col_idx@[k] as int) by {
        assert(was.visited(x));
        if x != u || k < was.cursor@[x] {
            assert(was.cursor@[x] <= s.cursor@[x]);
            assert(was.visited(snap.col_idx@[k] as int));
        }
    }
    assert forall|i: int, x: int, k: int|
        #![trigger s.under(i, x), snap.col_idx@[k]]
        0 <= i < s.path@.len() && 0 <= x < n && s.on(x) && s.under(i, x)
            && snap.row_ptr@[x] <= k < s.cursor@[x] && s.on(
            snap.col_idx@[k] as int,
        ) implies s.low@[s.at(i)] <= s.when(snap.col_idx@[k] as int) by {
        assert(was.at(i) == s.at(i) && was.at(i + 1) == s.at(i + 1));
        assert(was.under(i, x));
        assert(was.on(x) && was.on(snap.col_idx@[k] as int));
    }
}

proof fn lemma_advance_settles(snap: CsrSnapshot, was: Search, s: Search, u: usize)
    requires
        was.inv(snap),
        u < snap.n(),
        was.on(u as int),
        was.cursor@[u as int] < snap.row_ptr@[u + 1],
        was.visited(snap.col_idx@[was.cursor@[u as int] as int] as int),
        forall|i: int|
            0 <= i < was.path@.len() && #[trigger] was.under(i, u as int) && was.on(
                snap.col_idx@[was.cursor@[u as int] as int] as int,
            ) ==> was.low@[was.at(i)] <= was.when(
                snap.col_idx@[was.cursor@[u as int] as int] as int,
            ),
        advanced(was, s, u),
    ensures
        s.settles(snap),
{
    reveal(Search::shapes);
    reveal(Search::settles);
    let n = snap.n() as int;
    assert forall|x: int|
        #![trigger s.visited(x)]
        #![trigger s.on(x)]
        #![trigger s.when(x)]
        #![trigger s.settled(x)]
        s.visited(x) == was.visited(x) && s.on(x) == was.on(x) && s.when(x) == was.when(x)
            && s.settled(x) == was.settled(x) by {}
    assert forall|i: int| #[trigger] s.at(i) == was.at(i) by {}
}

impl Search {
    /// Puts a node that has not been met on the path and the stack.
    fn discover(&mut self, snap: &CsrSnapshot, v: usize)
        requires
            old(self).inv(*snap),
            v < snap.n(),
            !old(self).visited(v as int),
            old(self).path@.len() > 0 ==> arc(
                snap.edges@,
                old(self).at(old(self).path@.len() - 1),
                v as int,
            ),
            old(self).path@.len() == 0 ==> forall|x: int|
                0 <= x < snap.n() ==> !#[trigger] old(self).on(x),
            old(self).cursor@[v as int] == snap.row_ptr@[v as int],
        ensures
            final(self).inv(*snap),
            old(self).keeps_settled(*final(self), snap.n() as int),
            final(self).next_component == old(self).next_component,
            final(self).cursor == old(self).cursor,
            final(self).path@ == old(self).path@.push(v),
            final(self).low@ == old(self).low@.update(v as int, old(self).next_index),
            final(self).index@ == old(self).index@.update(v as int, old(self).next_index),
            final(self).on_stack@ == old(self).on_stack@.update(v as int, true),
            final(self).visited(v as int),
            forall|x: int|
                0 <= x < snap.n() && x != v ==> #[trigger] final(self).visited(x) == old(
                    self,
                ).visited(x),
    {
        let ghost was = *self;
        proof {
            reveal(Search::shapes);
            assert(!self.visited(v as int));
            self.lemma_met(*snap);
            assert(self.next_index < snap.dense_to_id.len());
        }
        let now: usize = self.next_index;
        self.index.set(v, now);
        self.low.set(v, now);
        self.next_index = now + 1;
        self.pending.push(v);
        self.on_stack.set(v, true);
        self.path.push(v);
        self.met = Ghost(self.met@.push(v as int));
        proof {
            let s = *self;
            lemma_discover_shapes(*snap, was, s, v);
            lemma_discover_stacks(*snap, was, s, v);
            lemma_discover_reaches(*snap, was, s, v);
            lemma_discover_marks(*snap, was, s, v);
            lemma_discover_walked(*snap, was, s, v);
            lemma_discover_settles(*snap, was, s, v);
        }
    }

    /// Lowers the mark of the node at the end of the path.
    fn lower(&mut self, snap: &CsrSnapshot, u: usize, v: usize)
        requires
            old(self).inv(*snap),
            old(self).path@.len() > 0,
            u == old(self).path@.last(),
            v < snap.n(),
            old(self).on(v as int),
            reach(snap.edges@, u as int, v as int),
        ensures
            final(self).inv(*snap),
            old(self).keeps_settled(*final(self), snap.n() as int),
            final(self).next_component == old(self).next_component,
            final(self).low@[u as int] <= final(self).when(v as int),
            final(self).path == old(self).path,
            final(self).cursor == old(self).cursor,
            final(self).index == old(self).index,
            final(self).on_stack == old(self).on_stack,
    {
        let ghost was = *self;
        proof {
            reveal(Search::shapes);
            reveal(Search::stacks);
            assert(self.path@[self.path@.len() - 1] == u);
        }
        let low: usize = if self.index[v] < self.low[u] {
            self.index[v]
        } else {
            self.low[u]
        };
        self.low.set(u, low);
        proof {
            let s = *self;
            lemma_lower_shapes(*snap, was, s, u, v, low);
            lemma_lower_stacks(*snap, was, s, u, v, low);
            lemma_lower_reaches(*snap, was, s, u, v, low);
            lemma_lower_marks(*snap, was, s, u, v, low);
            lemma_lower_walked(*snap, was, s, u, v, low);
            lemma_lower_settles(*snap, was, s, u, v, low);
        }
    }

    /// Walks past the next slot of a node, which leads to one that was met.
    fn advance(&mut self, snap: &CsrSnapshot, u: usize)
        requires
            old(self).inv(*snap),
            u < snap.n(),
            old(self).on(u as int),
            old(self).cursor@[u as int] < snap.row_ptr@[u + 1],
            old(self).visited(snap.col_idx@[old(self).cursor@[u as int] as int] as int),
            forall|i: int|
                0 <= i < old(self).path@.len() && #[trigger] old(self).under(i, u as int) && old(
                    self,
                ).on(snap.col_idx@[old(self).cursor@[u as int] as int] as int) ==> old(
                    self,
                ).low@[old(self).at(i)] <= old(self).when(
                    snap.col_idx@[old(self).cursor@[u as int] as int] as int,
                ),
        ensures
            final(self).inv(*snap),
            old(self).keeps_settled(*final(self), snap.n() as int),
            final(self).next_component == old(self).next_component,
            final(self).left(*snap) < old(self).left(*snap),
            final(self).path == old(self).path,
            final(self).index == old(self).index,
            final(self).on_stack == old(self).on_stack,
            final(self).cursor@ == old(self).cursor@.update(
                u as int,
                (old(self).cursor@[u as int] + 1) as usize,
            ),
    {
        let ghost was = *self;
        proof {
            reveal(Search::shapes);
        }
        self.cursor.set(u, self.cursor[u] + 1);
        proof {
            let s = *self;
            lemma_less_left(*snap, was.cursor@, s.cursor@, u as int);
            lemma_advance_shapes(*snap, was, s, u);
            lemma_advance_stacks(*snap, was, s, u);
            lemma_advance_reaches(*snap, was, s, u);
            lemma_advance_marks(*snap, was, s, u);
            lemma_advance_walked(*snap, was, s, u);
            lemma_advance_settles(*snap, was, s, u);
        }
    }
}

proof fn lemma_arc_in_range(snap: CsrSnapshot, x: int, y: int)
    requires
        snap.wf(),
        arc(snap.edges@, x, y),
    ensures
        0 <= x < snap.n(),
        0 <= y < snap.n(),
{
    let k = choose|k: int|
        0 <= k < snap.edges@.len() && (#[trigger] snap.edges@[k]).src == x && snap.edges@[k].dst
            == y;
    assert(snap.edges@[k].src == x);
}


/// The last node leaves the path and hands its mark to the one before it.
spec fn retired(was: Search, s: Search) -> bool {
    let last = was.path@.len() - 1;
    let (u, p) = (was.path@[last] as int, was.path@[last - 1] as int);
    &&& s.path@ == was.path@.drop_last()
    &&& s.low@ == was.low@.update(
        p,
        if was.low@[u] < was.low@[p] {
            was.low@[u]
        } else {
            was.low@[p]
        },
    )
    &&& s.index == was.index
    &&& s.cursor == was.cursor
    &&& s.on_stack == was.on_stack
    &&& s.pending == was.pending
    &&& s.component == was.component
    &&& s.next_index == was.next_index
    &&& s.next_component == was.next_component
    &&& s.met == was.met
}

/// The last node of the path has been walked, and reaches an earlier one on the stack.
spec fn retirable(snap: CsrSnapshot, was: Search) -> bool {
    let u = was.path@.last() as int;
    &&& was.inv(snap)
    &&& was.path@.len() > 0
    &&& was.cursor@[u] == snap.row_ptr@[u + 1]
    &&& was.low@[u] < was.when(u)
}

/// Such a node is not the first of the path.
proof fn lemma_not_first(snap: CsrSnapshot, was: Search) -> (y: int)
    requires
        retirable(snap, was),
    ensures
        was.path@.len() >= 2,
        0 <= y < snap.n(),
        was.on(y),
        was.when(y) == was.low@[was.path@.last() as int],
        reach(snap.edges@, was.path@.last() as int, y),
        forall|i: int|
            0 <= i < was.path@.len() ==> was.on(#[trigger] was.at(i)) && 0 <= was.at(i)
                < snap.n(),
{
    reveal(Search::shapes);
    reveal(Search::stacks);
    reveal(Search::marks);
    reveal(Search::reaches);
    let last = was.path@.len() - 1;
    let u = was.at(last);
    assert(u == was.path@.last());
    assert(was.lands(snap, u, was.low@[u] as int));
    let y = got_landing(snap, was, u, was.low@[u] as int);
    assert(was.comes_back(snap, y));
    let i = got_back(snap, was, y);
    assert(i != last);
    assert forall|i: int| 0 <= i < was.path@.len() implies was.on(#[trigger] was.at(i)) && 0
        <= was.at(i) < snap.n() by {
        assert(was.on(was.path@[i] as int));
    }
    y
}

proof fn lemma_same_marks(snap: CsrSnapshot, was: Search, s: Search)
    requires
        was.path@.len() > 0,
        retired(was, s),
    ensures
        forall|x: int|
            #![trigger s.visited(x)]
            #![trigger s.on(x)]
            #![trigger s.when(x)]
            #![trigger s.settled(x)]
            s.visited(x) == was.visited(x) && s.on(x) == was.on(x) && s.when(x) == was.when(x)
                && s.settled(x) == was.settled(x),
        forall|i: int| 0 <= i < s.path@.len() ==> #[trigger] s.at(i) == was.at(i),
{
    assert forall|i: int| 0 <= i < s.path@.len() implies #[trigger] s.at(i) == was.at(i) by {
        assert(s.path@[i] == was.path@[i]);
    }
}

proof fn lemma_retire_shapes(snap: CsrSnapshot, was: Search, s: Search)
    requires
        retirable(snap, was),
        retired(was, s),
    ensures
        s.shapes(snap),
        s.settles(snap),
{
    let y = lemma_not_first(snap, was);
    reveal(Search::shapes);
    reveal(Search::settles);
    lemma_same_marks(snap, was, s);
    assert(was.on(was.at(was.path@.len() - 2)));
}

proof fn lemma_retire_stacks(snap: CsrSnapshot, was: Search, s: Search)
    requires
        retirable(snap, was),
        retired(was, s),
    ensures
        s.stacks(snap),
{
    reveal(Search::shapes);
    reveal(Search::stacks);
    lemma_same_marks(snap, was, s);
    let n = snap.n() as int;
    let last = was.path@.len() - 1;
    assert forall|i: int| 0 <= i < s.path@.len() implies (#[trigger] s.path@[i]) < n && s.on(
        s.path@[i] as int,
    ) by {
        assert(s.path@[i] == was.path@[i]);
        assert(was.on(was.path@[i] as int));
    }
    assert forall|i: int, j: int| 0 <= i < j < s.path@.len() implies s.when(
        #[trigger] s.path@[i] as int,
    ) < s.when(#[trigger] s.path@[j] as int) by {
        assert(s.path@[i] == was.path@[i] && s.path@[j] == was.path@[j]);
        assert(was.when(was.path@[i] as int) < was.when(was.path@[j] as int));
    }
    assert forall|x: int|
        0 <= x < n && #[trigger] s.visited(x) && !s.path@.contains(
            x as usize,
        ) implies s.cursor@[x] == snap.row_ptr@[x + 1] by {
        if was.path@.contains(x as usize) {
            let j = was.path@.index_of(x as usize);
            assert(was.path@[j] == x as usize);
            if j < last {
                assert(s.path@[j] == x as usize);
            }
        } else {
            assert(was.visited(x));
        }
    }
}

proof fn lemma_retire_reaches(snap: CsrSnapshot, was: Search, s: Search)
    requires
        retirable(snap, was),
        retired(was, s),
    ensures
        s.reaches(snap),
{
    let y = lemma_not_first(snap, was);
    reveal(Search::reaches);
    lemma_same_marks(snap, was, s);
    let n = snap.n() as int;
    let edges = snap.edges@;
    let last = was.path@.len() - 1;
    let u = was.at(last);
    assert forall|i: int, x: int|
        #![trigger s.at(i), s.on(x)]
        0 <= i < s.path@.len() && 0 <= x < n && s.on(x) && s.when(s.at(i)) <= s.when(
            x,
        ) implies reach(edges, s.at(i), x) by {
        assert(was.at(i) == s.at(i) && was.on(x));
    }
    assert(was.comes_back(snap, y));
    let g = got_back(snap, was, y);
    assert(g != last);
    assert forall|x: int| 0 <= x < n && #[trigger] s.on(x) implies s.comes_back(snap, x) by {
        assert(was.on(x));
        assert(was.comes_back(snap, x));
        let i = got_back(snap, was, x);
        if i == last {
            lemma_reach_transitive(edges, x, u, y);
            lemma_reach_transitive(edges, x, y, was.at(g));
            assert(s.at(g) == was.at(g));
            assert(s.when(s.at(g)) <= s.when(x));
            put_back(snap, s, x, g);
        } else {
            assert(s.at(i) == was.at(i));
            put_back(snap, s, x, i);
        }
    }
}

proof fn lemma_retire_marks(snap: CsrSnapshot, was: Search, s: Search)
    requires
        retirable(snap, was),
        retired(was, s),
    ensures
        s.marks(snap),
{
    let y = lemma_not_first(snap, was);
    reveal(Search::shapes);
    reveal(Search::marks);
    reveal(Search::reaches);
    reveal(Search::stacks);
    lemma_same_marks(snap, was, s);
    let n = snap.n() as int;
    let edges = snap.edges@;
    let last = was.path@.len() - 1;
    let u = was.at(last);
    let p = was.at(last - 1);
    assert(was.when(p) < was.when(u)) by {
        assert(was.when(was.path@[last - 1] as int) < was.when(was.path@[last] as int));
    }
    assert(was.on(u));
    assert(reach(edges, was.at(last - 1), u));
    assert forall|i: int| 0 <= i < s.path@.len() implies s.low@[#[trigger] s.at(i)] <= s.when(
        s.at(i),
    ) && s.lands(snap, s.at(i), s.low@[s.at(i)] as int) by {
        assert(was.at(i) == s.at(i));
        assert(was.lands(snap, was.at(i), was.low@[was.at(i)] as int));
        if s.low@[s.at(i)] == was.low@[was.at(i)] {
            let z = got_landing(snap, was, was.at(i), was.low@[was.at(i)] as int);
            assert(s.on(z));
            put_landing(snap, s, s.at(i), z);
        } else {
            assert(was.at(i) == p);
            lemma_reach_transitive(edges, p, u, y);
            assert(s.on(y));
            put_landing(snap, s, s.at(i), y);
        }
    }
}

proof fn lemma_retire_walked(snap: CsrSnapshot, was: Search, s: Search)
    requires
        retirable(snap, was),
        retired(was, s),
    ensures
        s.walked(snap),
{
    let y = lemma_not_first(snap, was);
    reveal(Search::shapes);
    reveal(Search::walked);
    reveal(Search::stacks);
    lemma_same_marks(snap, was, s);
    let n = snap.n() as int;
    let last = was.path@.len() - 1;
    let u = was.at(last);
    let p = was.at(last - 1);
    assert forall|x: int, k: int|
        #![trigger s.cursor@[x], snap.col_idx@[k]]
        0 <= x < n && s.visited(x) && snap.row_ptr@[x] <= k < s.cursor@[x] implies s.visited(
        snap.col_idx@[k] as int,
    ) by {
        assert(was.visited(x));
        assert(was.cursor@[x] == s.cursor@[x]);
    }
    assert forall|i: int, x: int, k: int|
        #![trigger s.under(i, x), snap.col_idx@[k]]
        0 <= i < s.path@.len() && 0 <= x < n && s.on(x) && s.under(i, x) && snap.row_ptr@[x] <= k
            < s.cursor@[x] && s.on(snap.col_idx@[k] as int) implies s.low@[s.at(i)] <= s.when(
        snap.col_idx@[k] as int,
    ) by {
        assert(was.at(i) == s.at(i));
        assert(was.on(x) && was.on(snap.col_idx@[k] as int));
        if i < last - 1 {
            assert(s.at(i + 1) == was.at(i + 1));
            assert(was.under(i, x));
            assert(was.when(was.path@[i] as int) < was.when(was.path@[last - 1] as int));
            assert(was.at(i) != p);
        } else if was.when(x) < was.when(u) {
            assert(was.under(i, x));
        } else {
            assert(was.under(last, x));
        }
    }
}

/// The nodes on the stack from the last of the path on get a component, and
/// that one leaves the path.
spec fn closed_off(was: Search, s: Search, n: int, j: int) -> bool {
    let u = was.path@.last() as int;
    &&& 0 <= j < was.pending@.len()
    &&& was.pending@[j] == was.path@.last()
    &&& s.pending@ == was.pending@.take(j)
    &&& s.path@ == was.path@.drop_last()
    &&& s.on_stack@.len() == n
    &&& s.component@.len() == n
    &&& forall|v: int|
        0 <= v < n ==> #[trigger] s.on(v) == (was.on(v) && was.when(v) < was.when(u))
    &&& forall|v: int|
        0 <= v < n ==> (#[trigger] s.component@[v]) == (if was.on(v) && was.when(v) >= was.when(
            u,
        ) {
            was.next_component
        } else {
            was.component@[v]
        })
    &&& s.next_component == was.next_component + 1
    &&& s.index == was.index
    &&& s.low == was.low
    &&& s.cursor == was.cursor
    &&& s.next_index == was.next_index
    &&& s.met == was.met
}

/// The last node of the path has been walked, and is the earliest that it reaches.
spec fn closable(snap: CsrSnapshot, was: Search) -> bool {
    let u = was.path@.last() as int;
    &&& was.inv(snap)
    &&& was.path@.len() > 0
    &&& was.cursor@[u] == snap.row_ptr@[u + 1]
    &&& was.low@[u] == was.when(u)
    &&& was.next_component < was.next_index
}

/// The nodes that get a component now.
spec fn group(was: Search, n: int) -> spec_fn(int) -> bool {
    |v: int|
        0 <= v < n && was.on(v) && was.when(v) >= was.when(was.path@.last() as int)
}

/// The nodes that have or get a component.
spec fn inside(was: Search, n: int) -> spec_fn(int) -> bool {
    |v: int| 0 <= v < n && (was.settled(v) || group(was, n)(v))
}

proof fn lemma_path_nodes(snap: CsrSnapshot, was: Search)
    requires
        was.inv(snap),
    ensures
        forall|i: int|
            0 <= i < was.path@.len() ==> was.on(#[trigger] was.at(i)) && 0 <= was.at(i) < snap.n()
                && was.when(was.at(i)) <= was.when(was.path@.last() as int),
        forall|i: int|
            0 <= i < was.path@.len() - 1 ==> was.when(#[trigger] was.at(i)) < was.when(
                was.path@.last() as int,
            ),
{
    reveal(Search::stacks);
    let last = was.path@.len() - 1;
    assert forall|i: int| 0 <= i < was.path@.len() implies was.on(#[trigger] was.at(i)) && 0
        <= was.at(i) < snap.n() && was.when(was.at(i)) <= was.when(was.path@.last() as int) by {
        assert(was.on(was.path@[i] as int));
        if i < last {
            assert(was.when(was.path@[i] as int) < was.when(was.path@[last] as int));
        }
    }
    assert forall|i: int| 0 <= i < was.path@.len() - 1 implies was.when(#[trigger] was.at(i))
        < was.when(was.path@.last() as int) by {
        assert(was.when(was.path@[i] as int) < was.when(was.path@[last] as int));
    }
}

/// No arc leads out of what has or gets a component.
proof fn lemma_group_closed(snap: CsrSnapshot, was: Search)
    requires
        closable(snap, was),
    ensures
        forall|x: int, y: int|
            inside(was, snap.n() as int)(x) && #[trigger] arc(snap.edges@, x, y) ==> inside(
                was,
                snap.n() as int,
            )(y),
        forall|x: int, y: int|
            0 <= x < snap.n() && was.settled(x) && #[trigger] arc(snap.edges@, x, y)
                ==> was.settled(y),
{
    reveal(Search::shapes);
    reveal(Search::stacks);
    reveal(Search::walked);
    reveal(Search::settles);
    lemma_path_nodes(snap, was);
    let n = snap.n() as int;
    let last = was.path@.len() - 1;
    let u = was.path@.last() as int;
    assert(was.at(last) == u);
    assert forall|x: int, y: int| inside(was, n)(x) && #[trigger] arc(snap.edges@, x, y) implies
        inside(was, n)(y) by {
        lemma_arc_in_range(snap, x, y);
        if was.settled(x) {
            assert(was.settled(y));
        } else {
            assert(was.visited(x));
            assert(was.cursor@[x] == snap.row_ptr@[x + 1]) by {
                if was.path@.contains(x as usize) {
                    let i = was.path@.index_of(x as usize);
                    assert(was.path@[i] == x as usize);
                    assert(was.at(i) == x);
                    if i < last {
                        assert(was.when(was.at(i)) < was.when(u));
                    }
                }
            }
            let k = snap.lemma_arc_has_slot(x, y);
            assert(snap.col_idx@[k] == y);
            assert(was.visited(snap.col_idx@[k] as int));
            if was.on(y) {
                assert(was.under(last, x));
                assert(was.low@[was.at(last)] <= was.when(snap.col_idx@[k] as int));
            } else {
                assert(was.settled(y));
            }
        }
    }
}

/// Every node of the group reaches the last of the path, and is reached from it.
proof fn lemma_group_connected(snap: CsrSnapshot, was: Search, v: int)
    requires
        closable(snap, was),
        group(was, snap.n() as int)(v),
    ensures
        strongly_connected(snap.edges@, was.path@.last() as int, v),
{
    let n = snap.n() as int;
    let last = was.path@.len() - 1;
    let u = was.path@.last() as int;
    lemma_group_closed(snap, was);
    lemma_path_nodes(snap, was);
    assert(was.at(last) == u);
    assert(reach(snap.edges@, u, v)) by {
        reveal(Search::reaches);
        assert(was.on(v));
        assert(reach(snap.edges@, was.at(last), v));
    }
    assert(reach(snap.edges@, v, u)) by {
        assert(was.comes_back(snap, v)) by {
            reveal(Search::reaches);
            assert(was.on(v));
        }
        let i = got_back(snap, was, v);
        assert(inside(was, n)(v));
        lemma_closed(snap.edges@, inside(was, n), v, was.at(i));
        assert(was.on(was.at(i)));
        assert(!was.settled(was.at(i)));
        assert(i == last);
    }
}

proof fn lemma_close_basics(snap: CsrSnapshot, was: Search, s: Search, j: int)
    requires
        closable(snap, was),
        closed_off(was, s, snap.n() as int, j),
    ensures
        forall|x: int|
            0 <= x < snap.n() ==> #[trigger] s.settled(x) == inside(was, snap.n() as int)(x),
        forall|x: int|
            #![trigger s.visited(x)]
            #![trigger s.when(x)]
            s.visited(x) == was.visited(x) && s.when(x) == was.when(x),
        forall|i: int| 0 <= i < s.path@.len() ==> #[trigger] s.at(i) == was.at(i),
{
    reveal(Search::shapes);
    let n = snap.n() as int;
    assert forall|i: int| 0 <= i < s.path@.len() implies #[trigger] s.at(i) == was.at(i) by {
        assert(s.path@[i] == was.path@[i]);
    }
    assert forall|x: int| 0 <= x < n implies #[trigger] s.settled(x) == inside(was, n)(x) by {
        assert(s.on(x) == (was.on(x) && was.when(x) < was.when(was.path@.last() as int)));
        if was.on(x) {
            assert(was.visited(x));
        }
    }
}

proof fn lemma_close_shapes(snap: CsrSnapshot, was: Search, s: Search, j: int)
    requires
        closable(snap, was),
        closed_off(was, s, snap.n() as int, j),
    ensures
        s.shapes(snap),
{
    lemma_close_basics(snap, was, s, j);
    reveal(Search::shapes);
    assert forall|x: int| 0 <= x < snap.n() && #[trigger] s.on(x) implies s.visited(x) by {
        assert(was.on(x));
    }
}

proof fn lemma_close_stacks(snap: CsrSnapshot, was: Search, s: Search, j: int)
    requires
        closable(snap, was),
        closed_off(was, s, snap.n() as int, j),
    ensures
        s.stacks(snap),
{
    lemma_close_basics(snap, was, s, j);
    lemma_path_nodes(snap, was);
    reveal(Search::shapes);
    reveal(Search::stacks);
    let n = snap.n() as int;
    let last = was.path@.len() - 1;
    let u = was.path@.last() as int;
    assert forall|i: int| 0 <= i < s.pending@.len() implies (#[trigger] s.pending@[i]) < n && s.on(
        s.pending@[i] as int,
    ) by {
        assert(s.pending@[i] == was.pending@[i]);
        assert(was.on(was.pending@[i] as int));
        assert(was.when(was.pending@[i] as int) < was.when(was.pending@[j] as int));
    }
    assert forall|x: int| 0 <= x < n && #[trigger] s.on(x) implies s.pending@.contains(
        x as usize,
    ) by {
        assert(was.on(x));
        let k = was.pending@.index_of(x as usize);
        assert(was.pending@[k] == x as usize);
        if k > j {
            assert(was.when(was.pending@[j] as int) < was.when(was.pending@[k] as int));
        }
        assert(k < j);
        assert(s.pending@[k] == x as usize);
    }
    assert forall|a: int, b: int| 0 <= a < b < s.pending@.len() implies s.when(
        #[trigger] s.pending@[a] as int,
    ) < s.when(#[trigger] s.pending@[b] as int) by {
        assert(s.pending@[a] == was.pending@[a] && s.pending@[b] == was.pending@[b]);
        assert(was.when(was.pending@[a] as int) < was.when(was.pending@[b] as int));
    }
    assert forall|i: int| 0 <= i < s.path@.len() implies (#[trigger] s.path@[i]) < n && s.on(
        s.path@[i] as int,
    ) by {
        assert(s.path@[i] == was.path@[i]);
        assert(was.on(was.at(i)));
        assert(was.when(was.at(i)) < was.when(u));
    }
    assert forall|a: int, b: int| 0 <= a < b < s.path@.len() implies s.when(
        #[trigger] s.path@[a] as int,
    ) < s.when(#[trigger] s.path@[b] as int) by {
        assert(s.path@[a] == was.path@[a] && s.path@[b] == was.path@[b]);
        assert(was.when(was.path@[a] as int) < was.when(was.path@[b] as int));
    }
    assert forall|x: int|
        0 <= x < n && #[trigger] s.visited(x) && !s.path@.contains(
            x as usize,
        ) implies s.cursor@[x] == snap.row_ptr@[x + 1] by {
        if was.path@.contains(x as usize) {
            let i = was.path@.index_of(x as usize);
            assert(was.path@[i] == x as usize);
            if i < last {
                assert(s.path@[i] == x as usize);
            }
        } else {
            assert(was.visited(x));
        }
    }
}

proof fn lemma_close_reaches(snap: CsrSnapshot, was: Search, s: Search, j: int)
    requires
        closable(snap, was),
        closed_off(was, s, snap.n() as int, j),
    ensures
        s.reaches(snap),
        s.marks(snap),
{
    lemma_close_basics(snap, was, s, j);
    lemma_path_nodes(snap, was);
    reveal(Search::reaches);
    reveal(Search::marks);
    let n = snap.n() as int;
    let u = was.path@.last() as int;
    let last = was.path@.len() - 1;
    assert(was.at(last) == u);
    assert forall|i: int, x: int|
        #![trigger s.at(i), s.on(x)]
        0 <= i < s.path@.len() && 0 <= x < n && s.on(x) && s.when(s.at(i)) <= s.when(
            x,
        ) implies reach(snap.edges@, s.at(i), x) by {
        assert(was.at(i) == s.at(i) && was.on(x));
    }
    assert forall|x: int| 0 <= x < n && #[trigger] s.on(x) implies s.comes_back(snap, x) by {
        assert(was.on(x));
        assert(was.comes_back(snap, x));
        let i = got_back(snap, was, x);
        assert(i != last);
        assert(s.at(i) == was.at(i));
        put_back(snap, s, x, i);
    }
    assert forall|i: int| 0 <= i < s.path@.len() implies s.low@[#[trigger] s.at(i)] <= s.when(
        s.at(i),
    ) && s.lands(snap, s.at(i), s.low@[s.at(i)] as int) by {
        assert(was.at(i) == s.at(i));
        assert(was.lands(snap, was.at(i), was.low@[was.at(i)] as int));
        let z = got_landing(snap, was, was.at(i), was.low@[was.at(i)] as int);
        assert(was.when(was.at(i)) < was.when(u));
        assert(s.on(z));
        put_landing(snap, s, s.at(i), z);
    }
}

proof fn lemma_close_walked(snap: CsrSnapshot, was: Search, s: Search, j: int)
    requires
        closable(snap, was),
        closed_off(was, s, snap.n() as int, j),
    ensures
        s.walked(snap),
{
    lemma_close_basics(snap, was, s, j);
    lemma_path_nodes(snap, was);
    reveal(Search::shapes);
    reveal(Search::walked);
    let n = snap.n() as int;
    let last = was.path@.len() - 1;
    let u = was.path@.last() as int;
    assert(was.at(last) == u);
    assert forall|x: int, k: int|
        #![trigger s.cursor@[x], snap.col_idx@[k]]
        0 <= x < n && s.visited(x) && snap.row_ptr@[x] <= k < s.cursor@[x] implies s.visited(
        snap.col_idx@[k] as int,
    ) by {
        assert(was.visited(x));
        assert(was.cursor@[x] == s.cursor@[x]);
    }
    assert forall|i: int, x: int, k: int|
        #![trigger s.under(i, x), snap.col_idx@[k]]
        0 <= i < s.path@.len() && 0 <= x < n && s.on(x) && s.under(i, x) && snap.row_ptr@[x] <= k
            < s.cursor@[x] && s.on(snap.col_idx@[k] as int) implies s.low@[s.at(i)] <= s.when(
        snap.col_idx@[k] as int,
    ) by {
        assert(was.at(i) == s.at(i));
        assert(was.on(x));
        assert(snap.col_idx@[k] < n);
        assert(was.on(snap.col_idx@[k] as int));
        assert(was.under(i, x)) by {
            if i + 1 < s.path@.len() {
                assert(s.at(i + 1) == was.at(i + 1));
            }
        }
    }
}

proof fn lemma_close_settles(snap: CsrSnapshot, was: Search, s: Search, j: int)
    requires
        closable(snap, was),
        closed_off(was, s, snap.n() as int, j),
    ensures
        s.settles(snap),
{
    lemma_close_basics(snap, was, s, j);
    lemma_group_closed(snap, was);
    let n = snap.n() as int;
    let u = was.path@.last() as int;
    let edges = snap.edges@;
    assert(snap.wf() && was.component@.len() == n) by {
        reveal(Search::shapes);
    }
    reveal(Search::settles);
    assert forall|v: int| 0 <= v < n && #[trigger] s.settled(v) implies s.component@[v]
        < s.next_component && (group(was, n)(v) ==> s.component@[v] == was.next_component) && (
    !group(was, n)(v) ==> was.settled(v) && s.component@[v] == was.component@[v]
        && was.component@[v] < was.next_component) by {
        assert(inside(was, n)(v));
        if !group(was, n)(v) {
            assert(was.settled(v));
        }
    }
    assert forall|x: int, y: int|
        0 <= x < n && s.settled(x) && #[trigger] arc(edges, x, y) implies s.settled(y)
        && s.component@[y] <= s.component@[x] by {
        lemma_arc_in_range(snap, x, y);
        assert(inside(was, n)(x));
        assert(inside(was, n)(y));
        assert(s.settled(y));
        if !group(was, n)(x) {
            assert(was.settled(x));
            assert(was.settled(y));
            assert(was.component@[y] <= was.component@[x]);
        }
    }
    assert forall|x: int, y: int|
        #![trigger s.settled(x), s.settled(y)]
        0 <= x < n && 0 <= y < n && s.settled(x) && s.settled(y) implies (s.component@[x]
        == s.component@[y] <==> strongly_connected(edges, x, y)) by {
        if group(was, n)(x) && group(was, n)(y) {
            lemma_group_connected(snap, was, x);
            lemma_group_connected(snap, was, y);
            lemma_reach_transitive(edges, x, u, y);
            lemma_reach_transitive(edges, y, u, x);
        } else if group(was, n)(x) {
            assert(was.settled(y));
            if reach(edges, y, x) {
                lemma_settled_closed(snap, was, y, x);
            }
        } else if group(was, n)(y) {
            assert(was.settled(x));
            if reach(edges, x, y) {
                lemma_settled_closed(snap, was, x, y);
            }
        } else {
            assert(was.settled(x) && was.settled(y));
        }
    }
}

/// What is reached from a node with a component has one.
proof fn lemma_settled_closed(snap: CsrSnapshot, was: Search, x: int, y: int)
    requires
        closable(snap, was),
        0 <= x < snap.n(),
        was.settled(x),
        reach(snap.edges@, x, y),
    ensures
        was.settled(y),
{
    lemma_group_closed(snap, was);
    assert(snap.wf()) by {
        reveal(Search::shapes);
    }
    let n = snap.n() as int;
    let p = |v: int| 0 <= v < n && was.settled(v);
    assert forall|a: int, b: int| p(a) && #[trigger] arc(snap.edges@, a, b) implies p(b) by {
        lemma_arc_in_range(snap, a, b);
    }
    lemma_closed(snap.edges@, p, x, y);
}

impl Search {
    /// Takes the last node off the path, which reaches an earlier one on the stack.
    fn retire(&mut self, snap: &CsrSnapshot, u: usize)
        requires
            retirable(*snap, *old(self)),
            u == old(self).path@.last(),
        ensures
            final(self).inv(*snap),
            old(self).keeps_settled(*final(self), snap.n() as int),
            final(self).path@ == old(self).path@.drop_last(),
            final(self).cursor == old(self).cursor,
            final(self).index == old(self).index,
            final(self).on_stack == old(self).on_stack,
            final(self).next_component == old(self).next_component,
            final(self).next_index == old(self).next_index,
    {
        let ghost was = *self;
        proof {
            let y = lemma_not_first(*snap, was);
            let last = was.path@.len() - 1;
            assert(was.at(last) == u && was.at(last) < snap.n());
            assert(was.at(last - 1) < snap.n());
            reveal(Search::shapes);
        }
        self.path.pop();
        let p: usize = self.path[self.path.len() - 1];
        assert(p == was.at(was.path@.len() - 2));
        let low: usize = if self.low[u] < self.low[p] {
            self.low[u]
        } else {
            self.low[p]
        };
        self.low.set(p, low);
        proof {
            let s = *self;
            assert(retired(was, s));
            lemma_retire_shapes(*snap, was, s);
            lemma_retire_stacks(*snap, was, s);
            lemma_retire_reaches(*snap, was, s);
            lemma_retire_marks(*snap, was, s);
            lemma_retire_walked(*snap, was, s);
        }
    }

    /// Gives the nodes on the stack from the last of the path on their component.
    fn close(&mut self, snap: &CsrSnapshot, u: usize)
        requires
            closable(*snap, *old(self)),
            u == old(self).path@.last(),
        ensures
            final(self).inv(*snap),
            old(self).keeps_settled(*final(self), snap.n() as int),
            final(self).settled(u as int),
            final(self).component@[u as int] == old(self).next_component,
            u < snap.n(),
            final(self).path@ == old(self).path@.drop_last(),
            final(self).cursor == old(self).cursor,
            final(self).index == old(self).index,
            final(self).next_index == old(self).next_index,
            final(self).next_component == old(self).next_component + 1,
            forall|v: int|
                0 <= v < snap.n() && #[trigger] final(self).settled(v) && !old(self).settled(v)
                    ==> final(self).component@[v] == old(self).next_component,
    {
        let ghost was = *self;
        let ghost n = snap.n() as int;
        let ghost at = was.pending@.index_of(u);
        proof {
            reveal(Search::shapes);
            reveal(Search::stacks);
            lemma_path_nodes(*snap, was);
            assert(was.at(was.path@.len() - 1) == u);
            assert(was.on(u as int));
            assert(was.pending@.contains(u));
            assert(was.pending@[at] == u);
            assert(snap.dense_to_id.len() == n);
        }
        self.path.pop();
        let id: u64 = self.next_component;
        let mut done: bool = false;
        proof {
            assert(was.pending@.take(was.pending@.len() as int) =~= was.pending@);
        }
        while !done
            invariant
                closable(*snap, was),
                n == snap.n(),
                n <= usize::MAX,
                u == was.path@.last(),
                u < n,
                id == was.next_component,
                0 <= at < was.pending@.len(),
                was.pending@[at] == u,
                was.shapes(*snap),
                was.stacks(*snap),
                self.path@ == was.path@.drop_last(),
                self.index == was.index,
                self.low == was.low,
                self.cursor == was.cursor,
                self.next_index == was.next_index,
                self.next_component == was.next_component,
                self.met == was.met,
                self.on_stack@.len() == n,
                self.component@.len() == n,
                self.pending@.len() <= was.pending@.len(),
                self.pending@ == was.pending@.take(self.pending@.len() as int),
                done ==> self.pending@.len() == at,
                !done ==> self.pending@.len() > at,
                forall|v: int|
                    0 <= v < n ==> #[trigger] self.on(v) == (was.on(v) && self.pending@.contains(
                        v as usize,
                    )),
                forall|v: int|
                    0 <= v < n ==> (#[trigger] self.component@[v]) == (if was.on(v)
                        && !self.pending@.contains(v as usize) {
                        id
                    } else {
                        was.component@[v]
                    }),
            decreases self.pending@.len(), bit(!done),
        {
            let ghost before = *self;
            let ghost top = self.pending@.len() - 1;
            proof {
                reveal(Search::stacks);
                assert(self.pending@[top] == was.pending@[top]);
                assert(was.pending@[top] < n);
            }
            match self.pending.pop() {
                Some(w) => {
                    self.on_stack.set(w, false);
                    self.component.set(w, id);
                    proof {
                        assert(self.pending@ =~= was.pending@.take(top));
                        assert(was.on(was.pending@[top] as int));
                        assert(!self.pending@.contains(w)) by {
                            if self.pending@.contains(w) {
                                let k = self.pending@.index_of(w);
                                assert(was.pending@[k] == w);
                                assert(was.when(was.pending@[k] as int) < was.when(
                                    was.pending@[top] as int,
                                ));
                            }
                        }
                        assert forall|v: int| 0 <= v < n && v != w implies (
                        #[trigger] self.pending@.contains(v as usize)
                            <==> before.pending@.contains(v as usize)) by {
                            if before.pending@.contains(v as usize) {
                                let k = before.pending@.index_of(v as usize);
                                assert(before.pending@[k] == v as usize);
                                assert(before.pending@[top] == w);
                                assert(k < top);
                                assert(self.pending@[k] == before.pending@[k]);
                            }
                            if self.pending@.contains(v as usize) {
                                let k = self.pending@.index_of(v as usize);
                                assert(self.pending@[k] == v as usize);
                                assert(before.pending@[k] == v as usize);
                            }
                        }
                        assert forall|v: int| 0 <= v < n implies #[trigger] self.on(v) == (was.on(v)
                            && self.pending@.contains(v as usize)) by {
                            if v != w {
                                assert(self.on(v) == before.on(v));
                            }
                        }
                        assert forall|v: int| 0 <= v < n implies (#[trigger] self.component@[v])
                            == (if was.on(v) && !self.pending@.contains(v as usize) {
                            id
                        } else {
                            was.component@[v]
                        }) by {
                            if v != w {
                                assert(self.component@[v] == before.component@[v]);
                            }
                        }
                        if w == u && top != at {
                            assert(was.when(was.pending@[at] as int) < was.when(
                                was.pending@[top] as int,
                            ));
                        }
                        if w != u && top == at {
                            assert(false);
                        }
                    }
                    if w == u {
                        done = true;
                    }
                },
                None => {
                    done = true;
                },
            }
        }
        let ghost cut = *self;
        self.next_component = id + 1;
        proof {
            let s = *self;
            reveal(Search::stacks);
            assert forall|v: int| 0 <= v < n implies #[trigger] s.on(v) == (was.on(v) && was.when(v)
                < was.when(u as int)) && (was.on(v) ==> (s.pending@.contains(v as usize) <==> was.when(
                v,
            ) < was.when(u as int))) by {
                assert(s.on(v) == cut.on(v));
                if was.on(v) {
                    let k = was.pending@.index_of(v as usize);
                    assert(was.pending@.contains(v as usize));
                    assert(was.pending@[k] == v as usize);
                    if k < at {
                        assert(was.when(was.pending@[k] as int) < was.when(
                            was.pending@[at] as int,
                        ));
                        assert(s.pending@[k] == was.pending@[k]);
                        assert(s.pending@.contains(v as usize));
                    } else {
                        if k > at {
                            assert(was.when(was.pending@[at] as int) < was.when(
                                was.pending@[k] as int,
                            ));
                        }
                        if s.pending@.contains(v as usize) {
                            let i = s.pending@.index_of(v as usize);
                            assert(s.pending@[i] == v as usize);
                            assert(was.pending@[i] == v as usize);
                            assert(was.when(was.pending@[i] as int) < was.when(
                                was.pending@[at] as int,
                            ));
                        }
                    }
                }
            }
            assert forall|v: int| 0 <= v < n implies (#[trigger] s.component@[v]) == (if was.on(v)
                && was.when(v) >= was.when(u as int) {
                was.next_component
            } else {
                was.component@[v]
            }) by {
                assert(s.component@[v] == cut.component@[v]);
                assert(s.on(v) == cut.on(v));
            }
            assert(closed_off(was, s, n, at));
            lemma_close_shapes(*snap, was, s, at);
            lemma_close_stacks(*snap, was, s, at);
            lemma_close_reaches(*snap, was, s, at);
            lemma_close_walked(*snap, was, s, at);
            lemma_close_settles(*snap, was, s, at);
            assert forall|v: int| 0 <= v < n && #[trigger] was.settled(v) implies s.settled(v)
                && s.component@[v] == was.component@[v] by {
                assert(!was.on(v));
                assert(!s.on(v));
            }
            assert(!s.on(u as int));
            assert(was.visited(u as int));
            assert forall|v: int|
                0 <= v < n && #[trigger] s.settled(v) && !was.settled(v) implies s.component@[v]
                == was.next_component by {
                assert(s.index@[v] == was.index@[v]);
                assert(!s.on(v) && was.visited(v));
                assert(was.on(v) && was.when(v) >= was.when(u as int));
            }
        }
    }
}

/// The node at position `i` of `order` is the last one of its component there.
pub open spec fn closes(edges: Seq<Edge>, order: Seq<int>, i: int) -> bool {
    forall|j: int| i < j < order.len() ==> !strongly_connected(edges, order[i], #[trigger] order[j])
}

/// Every node has a component, and two nodes have the same exactly where they
/// can be reached from each other. A node that is reached from another has no
/// later component than it, and no number is left out. A depth-first search from node
/// 0 up finishes every node once, and the components are numbered in the order in
/// which it finishes them: a component is finished with the last of its nodes.
pub open spec fn components_of(edges: Seq<Edge>, n: nat, out: Seq<u64>) -> bool {
    let order = finish_order(edges, n);
    &&& out.len() == n
    &&& forall|u: int, v: int|
        0 <= u < n && 0 <= v < n ==> (#[trigger] out[u] == #[trigger] out[v] <==> strongly_connected(
            edges,
            u,
            v,
        ))
    &&& forall|u: int, v: int|
        0 <= u < n && 0 <= v < n && #[trigger] reach(edges, u, v) ==> out[v] <= out[u]
    &&& forall|u: int, c: u64|
        #![trigger out[u], out.contains(c)]
        0 <= u < n && c <= out[u] ==> out.contains(c)
    &&& order.no_duplicates()
    &&& forall|v: int| #[trigger] order.contains(v) <==> 0 <= v < n
    &&& forall|i: int, j: int|
        #![trigger closes(edges, order, i), closes(edges, order, j)]
        0 <= i < j < order.len() && closes(edges, order, i) && closes(edges, order, j)
            ==> out[order[i]] < out[order[j]]
}

/// The component of `u` is closed at some position of the order, at `i` or later.
proof fn lemma_closed_at(edges: Seq<Edge>, order: Seq<int>, u: int, i: int) -> (r: int)
    requires
        0 <= i < order.len(),
        strongly_connected(edges, u, order[i]),
    ensures
        i <= r < order.len(),
        strongly_connected(edges, u, order[r]),
        closes(edges, order, r),
    decreases order.len() - i,
{
    if closes(edges, order, i) {
        i
    } else {
        let j = choose|j: int|
            i < j < order.len() && strongly_connected(edges, order[i], #[trigger] order[j]);
        lemma_reach_transitive(edges, u, order[i], order[j]);
        lemma_reach_transitive(edges, order[j], order[i], u);
        lemma_closed_at(edges, order, u, j)
    }
}

/// Two numberings of the components order them in the same way.
proof fn lemma_same_ranks(edges: Seq<Edge>, n: nat, a: Seq<u64>, b: Seq<u64>, u: int, v: int)
    requires
        components_of(edges, n, a),
        components_of(edges, n, b),
        0 <= u < n,
        0 <= v < n,
    ensures
        a[u] < a[v] <==> b[u] < b[v],
        a[u] == a[v] <==> b[u] == b[v],
{
    let order = finish_order(edges, n);
    assert(order.contains(u) && order.contains(v));
    lemma_reach_self(edges, u);
    lemma_reach_self(edges, v);
    let x = lemma_closed_at(edges, order, u, order.index_of(u));
    let y = lemma_closed_at(edges, order, v, order.index_of(v));
    assert(order.contains(order[x]) && order.contains(order[y]));
    assert(a[u] == a[order[x]] && b[u] == b[order[x]]);
    assert(a[v] == a[order[y]] && b[v] == b[order[y]]);
    if x < y {
        assert(closes(edges, order, x) && closes(edges, order, y));
    } else if y < x {
        assert(closes(edges, order, y) && closes(edges, order, x));
    }
}

proof fn lemma_same_number(edges: Seq<Edge>, n: nat, a: Seq<u64>, b: Seq<u64>, u: int)
    requires
        components_of(edges, n, a),
        components_of(edges, n, b),
        0 <= u < n,
    ensures
        a[u] == b[u],
    decreases a[u],
{
    if b[u] > a[u] {
        assert(b.contains(a[u]));
        let v = choose|v: int| 0 <= v < b.len() && b[v] == a[u];
        lemma_same_ranks(edges, n, a, b, v, u);
        lemma_same_number(edges, n, a, b, v);
    } else if b[u] < a[u] {
        assert(a.contains(b[u]));
        let v = choose|v: int| 0 <= v < a.len() && a[v] == b[u];
        lemma_same_ranks(edges, n, a, b, v, u);
        lemma_same_number(edges, n, a, b, v);
    }
}

/// A graph has one numbering of its components.
pub proof fn lemma_components_unique(edges: Seq<Edge>, n: nat, a: Seq<u64>, b: Seq<u64>)
    requires
        components_of(edges, n, a),
        components_of(edges, n, b),
    ensures
        a == b,
{
    assert forall|u: int| 0 <= u < n implies a[u] == b[u] by {
        lemma_same_number(edges, n, a, b, u);
    }
    assert(a =~= b);
}

/// The strongly connected components, numbered in the order in which a depth-first
/// search from node 0 up finishes them.
pub fn strongly_connected_components(snap: &CsrSnapshot) -> (out: Vec<u64>)
    requires
        snap.wf(),
    ensures
        components_of(snap.edges@, snap.n(), out@),
{
    let n: usize = snap.dense_to_id.len();
    let mut search: Search = start(snap);
    let mut log: Ghost<Log> = Ghost(
        Log { entry: Seq::empty(), done: Seq::empty(), last: Seq::empty() },
    );
    let mut root: usize = 0;
    proof {
        lemma_log_start(*snap, search, log@);
    }
    while root < n
        invariant
            snap.wf(),
            n == snap.n(),
            root <= n,
            search.inv(*snap),
            search.path@.len() == 0,
            forall|v: int| 0 <= v < root ==> #[trigger] search.visited(v),
            forall|v: int|
                0 <= v < n && !#[trigger] search.visited(v) ==> search.cursor@[v]
                    == snap.row_ptr@[v],
            search.next_component <= search.next_index,
            search.numbered(n as int),
            so_far(*snap, search, log@.done) == tour_all(snap.edges@, n as nat, root as nat),
            finished(*snap, search, log@),
            ranked(search, log@),
        decreases n - root,
    {
        assert(search.index@.len() == n) by {
            reveal(Search::shapes);
        }
        if search.index[root] == UNMET {
            proof {
                assert(!search.visited(root as int));
                lemma_nothing_on(*snap, search);
            }
            let ghost before = search;
            search.discover(snap, root);
            proof {
                lemma_numbers_kept(before, search, n as int);
                assert(search.path@ =~= seq![root]);
                assert forall|v: int| 0 <= v < n && #[trigger] before.visited(v) implies
                    search.visited(v) by {
                    assert(v != root);
                }
                assert forall|v: int| 0 <= v < n && !#[trigger] search.visited(v) implies
                    search.cursor@[v] == snap.row_ptr@[v] by {
                    assert(!before.visited(v));
                }
                assert forall|x: int| 0 <= x < n && #[trigger] search.settled(x) implies
                    before.settled(x) by {
                    reveal(Search::shapes);
                    assert(!search.on_stack@[x]);
                    assert(x != root);
                }
                lemma_log_root(*snap, before, search, log@, root);
            }
            let ghost base = so_far(*snap, before, log@.done);
            log = Ghost(
                Log {
                    entry: seq![enter(base, root as int)],
                    done: log@.done,
                    last: log@.last,
                },
            );
            explore(snap, &mut search, Ghost(before), root, Ghost(base), &mut log);
            proof {
                reveal(touring);
                assert forall|v: int| 0 <= v < root + 1 implies #[trigger] search.visited(v) by {
                    if v < root {
                        assert(before.visited(v));
                    }
                }
            }
        } else {
            assert(search.visited(root as int));
        }
        root = root + 1;
    }
    proof {
        lemma_nothing_on(*snap, search);
        reveal(Search::settles);
        reveal(Search::shapes);
        let out = search.component@;
        assert forall|v: int| 0 <= v < n implies #[trigger] search.settled(v) by {
            assert(search.visited(v));
            assert(!search.on(v));
        }
        assert forall|u: int, v: int| 0 <= u < n && 0 <= v < n implies (#[trigger] out[u]
            == #[trigger] out[v] <==> strongly_connected(snap.edges@, u, v)) by {
            assert(search.settled(u) && search.settled(v));
        }
        assert forall|u: int, v: int|
            0 <= u < n && 0 <= v < n && #[trigger] reach(snap.edges@, u, v) implies out[v]
            <= out[u] by {
            let p = |x: int| 0 <= x < n && out[x] <= out[u];
            assert forall|a: int, b: int| p(a) && #[trigger] arc(snap.edges@, a, b) implies p(b) by {
                lemma_arc_in_range(*snap, a, b);
                assert(search.settled(a));
            }
            lemma_closed(snap.edges@, p, u, v);
        }
        assert forall|u: int, c: u64|
            #![trigger out[u], out.contains(c)]
            0 <= u < n && c <= out[u] implies out.contains(c) by {
            assert(search.settled(u));
            assert(search.used(c as int, n as int));
            let v = choose|v: int|
                0 <= v < n && #[trigger] search.settled(v) && search.component@[v] == c;
            assert(out[v] == c);
        }
        lemma_order_ranks(*snap, search, log@);
    }
    search.component
}

/// Without a path there is nothing on the stack.
proof fn lemma_nothing_on(snap: CsrSnapshot, s: Search)
    requires
        s.inv(snap),
        s.path@.len() == 0,
    ensures
        forall|x: int| 0 <= x < snap.n() ==> !#[trigger] s.on(x),
{
    reveal(Search::reaches);
    assert forall|x: int| 0 <= x < snap.n() implies !#[trigger] s.on(x) by {
        if s.on(x) {
            let i = got_back(snap, s, x);
        }
    }
}

/// The search before anything has been met.
fn start(snap: &CsrSnapshot) -> (s: Search)
    requires
        snap.wf(),
    ensures
        s.inv(*snap),
        s.path@.len() == 0,
        s.next_component <= s.next_index,
        s.numbered(snap.n() as int),
        s.next_component == 0,
        forall|v: int| 0 <= v < snap.n() ==> !#[trigger] s.visited(v),
        forall|v: int| 0 <= v < snap.n() ==> s.cursor@[v] == #[trigger] snap.row_ptr@[v],
        s.cursor@.len() == snap.n(),
{
    let n: usize = snap.dense_to_id.len();
    let mut index: Vec<usize> = Vec::new();
    let mut low: Vec<usize> = Vec::new();
    let mut cursor: Vec<usize> = Vec::new();
    let mut on_stack: Vec<bool> = Vec::new();
    let mut component: Vec<u64> = Vec::new();
    let mut v: usize = 0;
    while v < n
        invariant
            snap.wf(),
            n == snap.n(),
            v <= n,
            index@.len() == v,
            low@.len() == v,
            cursor@.len() == v,
            on_stack@.len() == v,
            component@.len() == v,
            forall|u: int| 0 <= u < v ==> #[trigger] index@[u] == UNMET,
            forall|u: int| 0 <= u < v ==> !#[trigger] on_stack@[u],
            forall|u: int| 0 <= u < v ==> #[trigger] cursor@[u] == snap.row_ptr@[u],
        decreases n - v,
    {
        index.push(UNMET);
        low.push(0);
        cursor.push(snap.row_ptr[v]);
        on_stack.push(false);
        component.push(0);
        v = v + 1;
    }
    let s: Search = Search {
        index,
        low,
        cursor,
        on_stack,
        pending: Vec::new(),
        path: Vec::new(),
        component,
        next_index: 0,
        next_component: 0,
        met: Ghost(Seq::empty()),
    };
    proof {
        reveal(Search::shapes);
        reveal(Search::stacks);
        reveal(Search::reaches);
        reveal(Search::marks);
        reveal(Search::walked);
        reveal(Search::settles);
        assert forall|v: int| 0 <= v < n implies !#[trigger] s.visited(v) by {
            assert(s.index@[v] == UNMET);
        }
        assert forall|v: int| 0 <= v < n implies !#[trigger] s.on(v) by {
            assert(!s.on_stack@[v]);
        }
        assert forall|v: int| 0 <= v < n implies !#[trigger] s.settled(v) by {
            assert(!s.visited(v));
        }
        assert forall|v: int| 0 <= v < n implies snap.row_ptr@[v] <= (#[trigger] s.cursor@[v])
            <= snap.row_ptr@[v + 1] by {
            assert(s.cursor@[v] == snap.row_ptr@[v]);
        }
        assert forall|v: int| 0 <= v < snap.n() implies s.cursor@[v]
            == #[trigger] snap.row_ptr@[v] by {
            assert(s.cursor@[v] == snap.row_ptr@[v]);
        }
    }
    s
}

/// No mark of the path is later than its last node.
proof fn lemma_fresh_is_late(snap: CsrSnapshot, s: Search)
    requires
        s.inv(snap),
    ensures
        forall|i: int|
            0 <= i < s.path@.len() ==> s.low@[#[trigger] s.at(i)] <= s.when(s.path@.last() as int),
{
    reveal(Search::marks);
    lemma_path_nodes(snap, s);
}

/// The last node of the path is under itself only.
proof fn lemma_top_under(snap: CsrSnapshot, s: Search, i: int)
    requires
        s.inv(snap),
        0 <= i < s.path@.len(),
        s.under(i, s.path@.last() as int),
    ensures
        i == s.path@.len() - 1,
{
    lemma_path_nodes(snap, s);
    if i < s.path@.len() - 1 {
        assert(s.when(s.at(i + 1)) <= s.when(s.path@.last() as int));
    }
}

/// There are fewer components than nodes that were met, where a path is left.
proof fn lemma_room_for_one(snap: CsrSnapshot, s: Search)
    requires
        s.inv(snap),
        s.path@.len() > 0,
    ensures
        s.next_component < s.next_index,
{
    reveal(Search::shapes);
    reveal(Search::stacks);
    let u = s.path@[s.path@.len() - 1];
    assert(s.on(u as int));
    assert(s.pending@.contains(u));
}

/// The mark of the last node of the path is no later than it.
proof fn lemma_low_below(snap: CsrSnapshot, s: Search)
    requires
        s.inv(snap),
        s.path@.len() > 0,
    ensures
        s.low@[s.path@.last() as int] <= s.when(s.path@.last() as int),
{
    reveal(Search::marks);
    assert(s.at(s.path@.len() - 1) == s.path@.last());
}

/// Where no component is added, every one still has a node.
proof fn lemma_numbers_kept(was: Search, s: Search, n: int)
    requires
        was.numbered(n),
        was.keeps_settled(s, n),
        s.next_component == was.next_component,
    ensures
        s.numbered(n),
{
    assert forall|c: int| 0 <= c < s.next_component implies #[trigger] s.used(c, n) by {
        assert(was.used(c, n));
        let v = choose|v: int| 0 <= v < n && #[trigger] was.settled(v) && was.component@[v] == c;
        assert(s.settled(v));
    }
}

/// Where a node gets the next component, every one has a node.
proof fn lemma_number_added(was: Search, s: Search, n: int, u: int)
    requires
        was.numbered(n),
        was.keeps_settled(s, n),
        s.next_component == was.next_component + 1,
        0 <= u < n,
        s.settled(u),
        s.component@[u] == was.next_component,
    ensures
        s.numbered(n),
{
    assert forall|c: int| 0 <= c < s.next_component implies #[trigger] s.used(c, n) by {
        if c < was.next_component {
            assert(was.used(c, n));
            let v = choose|v: int|
                0 <= v < n && #[trigger] was.settled(v) && was.component@[v] == c;
            assert(s.settled(v));
        } else {
            assert(s.settled(u));
        }
    }
}

/// What is kept of a search to tell the order in which it finishes its nodes.
struct Log {
    /// The search when it came to each node of the path.
    entry: Seq<Tour>,
    /// The nodes that are finished, in that order.
    done: Seq<int>,
    /// Where the last node of each component stands there.
    last: Seq<int>,
}

/// The nodes that were met, and those that are finished.
spec fn so_far(snap: CsrSnapshot, s: Search, done: Seq<int>) -> Tour {
    Tour { seen: Set::new(|v: int| 0 <= v < snap.n() && s.visited(v)), done }
}

/// The slots of the path node at `i` that have been walked.
spec fn walked_row(snap: CsrSnapshot, s: Search, i: int) -> Seq<Edge> {
    snap.edges@.filter(leaving(s.at(i))).take(s.cursor@[s.at(i)] - snap.row_ptr@[s.at(i)])
}

/// The last slot walked of the path node at `i` led to the next one.
spec fn hangs(snap: CsrSnapshot, s: Search, entry: Seq<Tour>, i: int) -> bool {
    let row = walked_row(snap, s, i);
    let before = tour_row(snap.edges@, row.drop_last(), entry[i], (snap.n() - i) as nat);
    &&& s.cursor@[s.at(i)] > snap.row_ptr@[s.at(i)]
    &&& row.last().dst == s.at(i + 1)
    &&& !before.seen.contains(s.at(i + 1))
    &&& entry[i + 1] == enter(before, s.at(i + 1))
}

/// The search is that of a tour that came to `root` when it was at `base`.
#[verifier::opaque]
spec fn touring(snap: CsrSnapshot, s: Search, base: Tour, root: int, log: Log) -> bool {
    let top = s.path@.len() - 1;
    if s.path@.len() == 0 {
        so_far(snap, s, log.done) == tour(snap.edges@, base, root, snap.n())
    } else {
        &&& log.entry.len() == s.path@.len()
        &&& s.at(0) == root
        &&& !base.seen.contains(root)
        &&& log.entry[0] == enter(base, root)
        &&& forall|i: int| 0 <= i < top ==> #[trigger] hangs(snap, s, log.entry, i)
        &&& so_far(snap, s, log.done) == tour_row(
            snap.edges@,
            walked_row(snap, s, top),
            log.entry[top],
            (snap.n() - top) as nat,
        )
    }
}

/// What is finished has been met and has left the path.
#[verifier::opaque]
spec fn finished(snap: CsrSnapshot, s: Search, log: Log) -> bool {
    &&& log.done.no_duplicates()
    &&& forall|v: int| #[trigger]
        log.done.contains(v) <==> 0 <= v < snap.n() && s.visited(v) && !s.path@.contains(
            v as usize,
        )
}

/// Position `i` is the last of component `c` among the finished nodes.
spec fn ends(s: Search, done: Seq<int>, c: int, i: int) -> bool {
    &&& 0 <= i < done.len()
    &&& s.settled(done[i]) && s.component@[done[i]] == c
    &&& forall|j: int|
        i < j < done.len() && s.settled(#[trigger] done[j]) ==> s.component@[done[j]] != c
}

/// The components are numbered in the order in which they are finished.
#[verifier::opaque]
spec fn ranked(s: Search, log: Log) -> bool {
    &&& log.last.len() == s.next_component
    &&& forall|c: int|
        0 <= c < log.last.len() ==> ends(s, log.done, c, #[trigger] log.last[c])
    &&& forall|c: int, d: int|
        0 <= c < d < log.last.len() ==> #[trigger] log.last[c] < #[trigger] log.last[d]
}

spec fn logged(snap: CsrSnapshot, s: Search, base: Tour, root: int, log: Log) -> bool {
    &&& touring(snap, s, base, root, log)
    &&& finished(snap, s, log)
    &&& ranked(s, log)
}

/// The nodes of the path are distinct, and no more than there are.
proof fn lemma_path_distinct(snap: CsrSnapshot, s: Search)
    requires
        s.inv(snap),
    ensures
        s.path@.len() <= snap.n(),
        forall|i: int| 0 <= i < s.path@.len() ==> 0 <= #[trigger] s.at(i) < snap.n(),
        forall|i: int, j: int|
            0 <= i < j < s.path@.len() ==> #[trigger] s.at(i) != #[trigger] s.at(j),
{
    reveal(Search::stacks);
    let p = s.path@.map_values(|v: usize| v as int);
    assert forall|i: int, j: int| 0 <= i < j < s.path@.len() implies #[trigger] s.at(i)
        != #[trigger] s.at(j) by {
        assert(s.when(s.path@[i] as int) < s.when(s.path@[j] as int));
    }
    assert(p.no_duplicates()) by {
        assert forall|i: int, j: int| 0 <= i < j < p.len() implies p[i] != p[j] by {
            assert(s.at(i) != s.at(j));
        }
    }
    assert forall|i: int| 0 <= i < p.len() implies 0 <= #[trigger] p[i] < snap.n() by {
        assert(s.path@[i] < snap.n());
    }
    lemma_distinct_bound(p, snap.n());
}

/// Slots of a row are those of the edges that leave its node.
proof fn lemma_slot_edge(snap: CsrSnapshot, u: int, k: int)
    requires
        snap.wf(),
        0 <= u < snap.n(),
        snap.row_ptr@[u] <= k < snap.row_ptr@[u + 1],
    ensures
        snap.edges@.filter(leaving(u)).len() == snap.row_ptr@[u + 1] - snap.row_ptr@[u],
        snap.edges@.filter(leaving(u))[k - snap.row_ptr@[u]].dst == snap.col_idx@[k],
{
    assert(snap.out_row(u) == snap.edges@.filter(leaving(u)));
}

/// A whole row is as long as its slots.
proof fn lemma_row_length(snap: CsrSnapshot, u: int)
    requires
        snap.wf(),
        0 <= u < snap.n(),
    ensures
        snap.edges@.filter(leaving(u)).len() == snap.row_ptr@[u + 1] - snap.row_ptr@[u],
{
    assert(snap.out_row(u) == snap.edges@.filter(leaving(u)));
}

/// What is known of the order stays where nothing is finished.
proof fn lemma_ranked_same(snap: CsrSnapshot, was: Search, s: Search, was_log: Log, log: Log)
    requires
        ranked(was, was_log),
        finished(snap, was, was_log),
        was.keeps_settled(s, snap.n() as int),
        s.next_component == was.next_component,
        forall|v: int| 0 <= v < snap.n() && #[trigger] s.settled(v) ==> was.settled(v),
        was_log.done.len() <= log.done.len(),
        log.done.take(was_log.done.len() as int) == was_log.done,
        forall|i: int|
            was_log.done.len() <= i < log.done.len() ==> 0 <= #[trigger] log.done[i] < snap.n()
                && !s.settled(log.done[i]),
        log.last == was_log.last,
    ensures
        ranked(s, log),
{
    reveal(ranked);
    reveal(finished);
    assert forall|i: int| 0 <= i < was_log.done.len() implies #[trigger] log.done[i]
        == was_log.done[i] && 0 <= log.done[i] < snap.n() by {
        assert(log.done.take(was_log.done.len() as int)[i] == log.done[i]);
        assert(was_log.done.contains(was_log.done[i]));
    }
    assert forall|c: int| 0 <= c < log.last.len() implies ends(
        s,
        log.done,
        c,
        #[trigger] log.last[c],
    ) by {
        assert(ends(was, was_log.done, c, was_log.last[c]));
        let i = log.last[c];
        assert(log.done[i] == was_log.done[i]);
        assert forall|j: int| i < j < log.done.len() && s.settled(#[trigger] log.done[j]) implies
            s.component@[log.done[j]] != c by {
            if j < was_log.done.len() {
                assert(log.done[j] == was_log.done[j]);
                assert(was.settled(was_log.done[j]));
            }
        }
    }
}

/// The search comes to a new node along the next slot of the last one.
proof fn lemma_log_discover(
    snap: CsrSnapshot,
    was: Search,
    s: Search,
    base: Tour,
    root: int,
    log: Log,
    u: usize,
    v: usize,
)
    requires
        was.inv(snap),
        logged(snap, was, base, root, log),
        was.path@.len() > 0,
        u == was.path@.last(),
        was.cursor@[u as int] < snap.row_ptr@[u + 1],
        v == snap.col_idx@[was.cursor@[u as int] as int],
        v < snap.n(),
        !was.visited(v as int),
        s.visited(v as int),
        forall|x: int|
            0 <= x < snap.n() && x != v ==> #[trigger] s.visited(x) == was.visited(x),
        s.path@ == was.path@.push(v),
        s.cursor@ == was.cursor@.update(u as int, (was.cursor@[u as int] + 1) as usize),
        s.cursor@[v as int] == snap.row_ptr@[v as int],
        was.keeps_settled(s, snap.n() as int),
        s.next_component == was.next_component,
        forall|x: int| 0 <= x < snap.n() && #[trigger] s.settled(x) ==> was.settled(x),
    ensures
        logged(
            snap,
            s,
            base,
            root,
            Log {
                entry: log.entry.push(enter(so_far(snap, was, log.done), v as int)),
                done: log.done,
                last: log.last,
            },
        ),
{
    reveal(Search::shapes);
    let state = so_far(snap, was, log.done);
    let new = Log { entry: log.entry.push(enter(state, v as int)), done: log.done, last: log.last };
    let top = was.path@.len() - 1;
    lemma_path_distinct(snap, was);
    assert(was.at(top) == u);
    assert(new.done.take(log.done.len() as int) =~= log.done);
    lemma_ranked_same(snap, was, s, log, new);
    assert(finished(snap, s, new)) by {
        reveal(finished);
        assert forall|x: int| #[trigger] new.done.contains(x) <==> 0 <= x < snap.n() && s.visited(x)
            && !s.path@.contains(x as usize) by {
            if x == v {
                assert(s.path@[top + 1] == v);
                assert(!was.visited(x));
            } else {
                if was.path@.contains(x as usize) {
                    let i = was.path@.index_of(x as usize);
                    assert(s.path@[i] == x as usize);
                }
                if 0 <= x < snap.n() && s.path@.contains(x as usize) {
                    let i = s.path@.index_of(x as usize);
                    assert(i <= top);
                    assert(was.path@[i] == x as usize);
                }
            }
        }
    }
    assert(touring(snap, s, base, root, new)) by {
        reveal(touring);
        let k = was.cursor@[u as int] as int;
        lemma_slot_edge(snap, u as int, k);
        assert forall|i: int| 0 <= i <= top implies #[trigger] s.at(i) == was.at(i) by {}
        assert(s.at(top + 1) == v);
        assert forall|i: int| 0 <= i < top + 1 implies #[trigger] hangs(snap, s, new.entry, i) by {
            if i < top {
                assert(hangs(snap, was, log.entry, i));
                assert(was.at(i) != was.at(top));
                assert(s.at(i + 1) == was.at(i + 1));
                assert(walked_row(snap, s, i) == walked_row(snap, was, i));
            } else {
                let row = walked_row(snap, s, top);
                assert(row.drop_last() =~= walked_row(snap, was, top));
                assert(!state.seen.contains(v as int));
            }
        }
        assert(walked_row(snap, s, top + 1) =~= Seq::empty());
        assert(so_far(snap, s, new.done).seen =~= enter(state, v as int).seen);
    }
}

/// The next slot of the last node leads to one that was met.
proof fn lemma_log_advance(
    snap: CsrSnapshot,
    was: Search,
    s: Search,
    base: Tour,
    root: int,
    log: Log,
    u: usize,
)
    requires
        was.inv(snap),
        logged(snap, was, base, root, log),
        was.path@.len() > 0,
        u == was.path@.last(),
        was.cursor@[u as int] < snap.row_ptr@[u + 1],
        was.visited(snap.col_idx@[was.cursor@[u as int] as int] as int),
        0 <= snap.col_idx@[was.cursor@[u as int] as int] < snap.n(),
        s.index == was.index,
        s.on_stack == was.on_stack,
        s.path == was.path,
        s.cursor@ == was.cursor@.update(u as int, (was.cursor@[u as int] + 1) as usize),
        was.keeps_settled(s, snap.n() as int),
        s.next_component == was.next_component,
    ensures
        logged(snap, s, base, root, log),
{
    reveal(Search::shapes);
    let top = was.path@.len() - 1;
    lemma_path_distinct(snap, was);
    assert(was.at(top) == u);
    assert forall|x: int| #[trigger] s.settled(x) == was.settled(x) by {}
    assert forall|x: int| #[trigger] s.visited(x) == was.visited(x) by {}
    assert(log.done.take(log.done.len() as int) =~= log.done);
    lemma_ranked_same(snap, was, s, log, log);
    assert(finished(snap, s, log)) by {
        reveal(finished);
    }
    assert(touring(snap, s, base, root, log)) by {
        reveal(touring);
        let k = was.cursor@[u as int] as int;
        let v = snap.col_idx@[k] as int;
        lemma_slot_edge(snap, u as int, k);
        assert forall|i: int| #[trigger] s.at(i) == was.at(i) by {}
        assert forall|i: int| 0 <= i < top implies #[trigger] hangs(snap, s, log.entry, i) by {
            assert(hangs(snap, was, log.entry, i));
            assert(was.at(i) != was.at(top));
            assert(s.at(i + 1) == was.at(i + 1));
            assert(walked_row(snap, s, i) == walked_row(snap, was, i));
        }
        let row = walked_row(snap, s, top);
        assert(row.drop_last() =~= walked_row(snap, was, top));
        assert(row.last().dst == v);
        let room = (snap.n() - top) as nat;
        let state = so_far(snap, was, log.done);
        assert(state == tour_row(snap.edges@, row.drop_last(), log.entry[top], room));
        assert(state.seen.contains(v));
        assert(tour(snap.edges@, state, v, (room - 1) as nat) == state);
        assert(tour_row(snap.edges@, row, log.entry[top], room) == state);
        assert(so_far(snap, s, log.done).seen =~= state.seen);
    }
}

/// The last node of the path has been walked and leaves it.
proof fn lemma_tour_leave(
    snap: CsrSnapshot,
    was: Search,
    s: Search,
    base: Tour,
    root: int,
    log: Log,
    last: Seq<int>,
    u: usize,
)
    requires
        was.inv(snap),
        touring(snap, was, base, root, log),
        finished(snap, was, log),
        was.path@.len() > 0,
        u == was.path@.last(),
        was.cursor@[u as int] == snap.row_ptr@[u + 1],
        s.index == was.index,
        s.cursor == was.cursor,
        s.path@ == was.path@.drop_last(),
    ensures
        !log.done.contains(u as int),
        u < snap.n(),
        ({
            let new = Log { entry: log.entry.drop_last(), done: log.done.push(u as int), last };
            touring(snap, s, base, root, new) && finished(snap, s, new)
        }),
{
    reveal(Search::shapes);
    reveal(Search::stacks);
    let new = Log { entry: log.entry.drop_last(), done: log.done.push(u as int), last };
    let top = was.path@.len() - 1;
    lemma_path_distinct(snap, was);
    assert(was.at(top) == u);
    assert(was.path@[top] == u && was.on(u as int) && was.visited(u as int));
    assert forall|x: int| #[trigger] s.visited(x) == was.visited(x) by {}
    assert(!log.done.contains(u as int)) by {
        reveal(finished);
        assert(was.path@.contains(u));
    }
    assert(finished(snap, s, new)) by {
        reveal(finished);
        assert forall|x: int| #[trigger] new.done.contains(x) <==> 0 <= x < snap.n() && s.visited(x)
            && !s.path@.contains(x as usize) by {
            if x == u {
                assert(new.done[log.done.len() as int] == x);
                if s.path@.contains(u) {
                    let i = s.path@.index_of(u);
                    assert(was.at(i) == u);
                }
            } else {
                if new.done.contains(x) {
                    let i = new.done.index_of(x);
                    assert(log.done[i] == x);
                }
                if log.done.contains(x) {
                    let i = log.done.index_of(x);
                    assert(new.done[i] == x);
                }
                if 0 <= x < snap.n() && was.path@.contains(x as usize) {
                    let i = was.path@.index_of(x as usize);
                    assert(was.at(i) == x);
                    assert(s.path@[i] == x as usize);
                }
                if s.path@.contains(x as usize) {
                    let i = s.path@.index_of(x as usize);
                    assert(was.path@[i] == x as usize);
                }
            }
        }
        assert forall|i: int, j: int| 0 <= i < j < new.done.len() implies new.done[i]
            != new.done[j] by {
            if j == log.done.len() {
                assert(log.done.contains(log.done[i]));
            }
        }
    }
    assert(touring(snap, s, base, root, new)) by {
        reveal(touring);
        let edges = snap.edges@;
        lemma_row_length(snap, u as int);
        let row = edges.filter(leaving(u as int));
        assert(walked_row(snap, was, top) =~= row);
        let walked = so_far(snap, was, log.done);
        assert(so_far(snap, s, new.done).seen =~= walked.seen);
        if top == 0 {
            assert(walked == tour_row(edges, row, enter(base, root), snap.n()));
            assert(so_far(snap, s, new.done) == tour(edges, base, root, snap.n()));
        } else {
            let below = top - 1;
            assert(hangs(snap, was, log.entry, below));
            let part = walked_row(snap, was, below);
            let room = (snap.n() - below) as nat;
            let before = tour_row(edges, part.drop_last(), log.entry[below], room);
            assert(walked == tour_row(edges, row, enter(before, u as int), (room - 1) as nat));
            assert(so_far(snap, s, new.done) == tour(
                edges,
                before,
                u as int,
                (room - 1) as nat,
            ));
            lemma_row_length(snap, was.at(below));
            assert(part.len() > 0);
            assert(so_far(snap, s, new.done) == tour_row(edges, part, log.entry[below], room));
            assert forall|i: int| 0 <= i <= below implies #[trigger] s.at(i) == was.at(i) by {}
            assert forall|i: int| 0 <= i < below implies #[trigger] hangs(
                snap,
                s,
                new.entry,
                i,
            ) by {
                assert(hangs(snap, was, log.entry, i));
                assert(s.at(i + 1) == was.at(i + 1));
                assert(walked_row(snap, s, i) == walked_row(snap, was, i));
            }
            assert(walked_row(snap, s, below) == walked_row(snap, was, below));
        }
    }
}

/// The last node of the path leaves it and gives its component the next number.
proof fn lemma_ranked_closed(
    snap: CsrSnapshot,
    was: Search,
    s: Search,
    log: Log,
    entry: Seq<Tour>,
    u: usize,
)
    requires
        was.inv(snap),
        ranked(was, log),
        finished(snap, was, log),
        was.keeps_settled(s, snap.n() as int),
        s.next_component == was.next_component + 1,
        u < snap.n(),
        s.settled(u as int),
        s.component@[u as int] == was.next_component,
        forall|v: int|
            0 <= v < snap.n() && #[trigger] s.settled(v) && !was.settled(v) ==> s.component@[v]
                == was.next_component,
    ensures
        ranked(
            s,
            Log {
                entry,
                done: log.done.push(u as int),
                last: log.last.push(log.done.len() as int),
            },
        ),
{
    reveal(ranked);
    reveal(finished);
    reveal(Search::settles);
    let done = log.done.push(u as int);
    let last = log.last.push(log.done.len() as int);
    assert forall|i: int| 0 <= i < log.done.len() implies #[trigger] done[i] == log.done[i] && 0
        <= done[i] < snap.n() by {
        assert(log.done.contains(log.done[i]));
    }
    assert forall|c: int| 0 <= c < last.len() implies ends(s, done, c, #[trigger] last[c]) by {
        if c < log.last.len() {
            assert(ends(was, log.done, c, log.last[c]));
            let i = last[c];
            assert(done[i] == log.done[i]);
            assert forall|j: int| i < j < done.len() && s.settled(#[trigger] done[j]) implies
                s.component@[done[j]] != c by {
                if j < log.done.len() {
                    assert(done[j] == log.done[j]);
                }
            }
        }
    }
    assert forall|c: int, d: int| 0 <= c < d < last.len() implies #[trigger] last[c]
        < #[trigger] last[d] by {
        assert(ends(was, log.done, c, log.last[c]));
    }
}

/// Nothing is finished before anything has been met.
proof fn lemma_log_start(snap: CsrSnapshot, s: Search, log: Log)
    requires
        forall|v: int| 0 <= v < snap.n() ==> !#[trigger] s.visited(v),
        s.next_component == 0,
        log.done.len() == 0,
        log.last.len() == 0,
    ensures
        so_far(snap, s, log.done) == tour_all(snap.edges@, snap.n(), 0),
        finished(snap, s, log),
        ranked(s, log),
{
    reveal(finished);
    reveal(ranked);
    assert(log.done =~= Seq::empty());
    assert(so_far(snap, s, log.done).seen =~= Set::empty());
}

/// The search comes to a node without a path.
proof fn lemma_log_root(snap: CsrSnapshot, was: Search, s: Search, log: Log, root: usize)
    requires
        was.inv(snap),
        finished(snap, was, log),
        ranked(was, log),
        was.path@.len() == 0,
        root < snap.n(),
        !was.visited(root as int),
        s.visited(root as int),
        forall|x: int|
            0 <= x < snap.n() && x != root ==> #[trigger] s.visited(x) == was.visited(x),
        s.path@ == seq![root],
        s.cursor@[root as int] == snap.row_ptr@[root as int],
        was.keeps_settled(s, snap.n() as int),
        s.next_component == was.next_component,
        forall|x: int| 0 <= x < snap.n() && #[trigger] s.settled(x) ==> was.settled(x),
    ensures
        logged(
            snap,
            s,
            so_far(snap, was, log.done),
            root as int,
            Log {
                entry: seq![enter(so_far(snap, was, log.done), root as int)],
                done: log.done,
                last: log.last,
            },
        ),
{
    let base = so_far(snap, was, log.done);
    let new = Log { entry: seq![enter(base, root as int)], done: log.done, last: log.last };
    assert(new.done.take(log.done.len() as int) =~= log.done);
    lemma_ranked_same(snap, was, s, log, new);
    assert(finished(snap, s, new)) by {
        reveal(finished);
        assert forall|x: int| #[trigger] new.done.contains(x) <==> 0 <= x < snap.n() && s.visited(x)
            && !s.path@.contains(x as usize) by {
            if x == root {
                assert(s.path@[0] == root);
                assert(!was.visited(x));
            } else if 0 <= x < snap.n() {
                assert(snap.dense_to_id.len() == snap.n());
                assert(!was.path@.contains(x as usize));
                assert(!s.path@.contains(x as usize));
            }
        }
    }
    assert(touring(snap, s, base, root as int, new)) by {
        reveal(touring);
        assert(s.at(0) == root);
        assert(walked_row(snap, s, 0) =~= Seq::empty());
        assert(so_far(snap, s, new.done).seen =~= enter(base, root as int).seen);
    }
}

/// Where everything is finished, the components are numbered in the order of the nodes
/// that close them.
proof fn lemma_order_ranks(snap: CsrSnapshot, s: Search, log: Log)
    requires
        s.inv(snap),
        s.path@.len() == 0,
        forall|v: int| 0 <= v < snap.n() ==> #[trigger] s.settled(v),
        finished(snap, s, log),
        ranked(s, log),
    ensures
        log.done.no_duplicates(),
        forall|v: int| #[trigger] log.done.contains(v) <==> 0 <= v < snap.n(),
        forall|i: int, j: int|
            #![trigger closes(snap.edges@, log.done, i), closes(snap.edges@, log.done, j)]
            0 <= i < j < log.done.len() && closes(snap.edges@, log.done, i) && closes(
                snap.edges@,
                log.done,
                j,
            ) ==> s.component@[log.done[i]] < s.component@[log.done[j]],
{
    reveal(finished);
    reveal(ranked);
    reveal(Search::settles);
    let done = log.done;
    let edges = snap.edges@;
    assert forall|v: int| #[trigger] done.contains(v) <==> 0 <= v < snap.n() by {
        if 0 <= v < snap.n() {
            assert(s.settled(v));
        }
    }
    assert forall|i: int| 0 <= i < done.len() && #[trigger] closes(edges, done, i) implies ({
        let c = s.component@[done[i]] as int;
        c < log.last.len() && log.last[c] == i
    }) by {
        assert(done.contains(done[i]));
        assert(s.settled(done[i]));
        let c = s.component@[done[i]] as int;
        assert(ends(s, done, c, log.last[c]));
        let k = log.last[c];
        assert(done.contains(done[k]));
        assert(s.settled(done[k]));
        assert(strongly_connected(edges, done[i], done[k]));
    }
    assert forall|i: int, j: int|
        #![trigger closes(edges, done, i), closes(edges, done, j)]
        0 <= i < j < done.len() && closes(edges, done, i) && closes(
            edges,
            done,
            j,
        ) implies s.component@[done[i]] < s.component@[done[j]] by {
        let (c, d) = (s.component@[done[i]] as int, s.component@[done[j]] as int);
        assert(log.last[c] == i && log.last[d] == j);
        if d < c {
            assert(log.last[d] < log.last[c]);
        }
    }
}

/// Walks everything that can be met from the node on the path.
fn explore(
    snap: &CsrSnapshot,
    search: &mut Search,
    before: Ghost<Search>,
    root: usize,
    base: Ghost<Tour>,
    log: &mut Ghost<Log>,
)
    requires
        old(search).inv(*snap),
        old(search).numbered(snap.n() as int),
        root < snap.n(),
        old(search).path@ == seq![root],
        old(search).visited(root as int),
        forall|v: int|
            0 <= v < snap.n() && #[trigger] before@.visited(v) ==> old(search).visited(v),
        forall|v: int|
            0 <= v < snap.n() && !#[trigger] old(search).visited(v) ==> old(search).cursor@[v]
                == snap.row_ptr@[v],
        logged(*snap, *old(search), base@, root as int, old(log)@),
    ensures
        final(search).inv(*snap),
        final(search).numbered(snap.n() as int),
        final(search).path@.len() == 0,
        final(search).visited(root as int),
        forall|v: int|
            0 <= v < snap.n() && #[trigger] before@.visited(v) ==> final(search).visited(v),
        forall|v: int|
            0 <= v < snap.n() && !#[trigger] final(search).visited(v) ==> final(search).cursor@[v]
                == snap.row_ptr@[v],
        final(search).next_component <= final(search).next_index,
        logged(*snap, *final(search), base@, root as int, final(log)@),
{
    let n: usize = snap.dense_to_id.len();
    proof {
        reveal(Search::shapes);
    }
    while search.path.len() > 0
        invariant
            n == snap.n(),
            search.inv(*snap),
            search.numbered(n as int),
            root < n,
            search.visited(root as int),
            forall|v: int|
                0 <= v < n && #[trigger] before@.visited(v) ==> search.visited(v),
            forall|v: int|
                0 <= v < n && !#[trigger] search.visited(v) ==> search.cursor@[v]
                    == snap.row_ptr@[v],
            search.next_component <= search.next_index,
            logged(*snap, *search, base@, root as int, log@),
        decreases search.left(*snap), search.path@.len(),
    {
        let ghost was = *search;
        let u: usize = search.path[search.path.len() - 1];
        let ghost last = search.path@.len() - 1;
        proof {
            reveal(Search::shapes);
            lemma_path_nodes(*snap, *search);
            assert(search.at(last) == u && search.on(search.at(last)));
        }
        let k: usize = search.cursor[u];
        if k < snap.row_ptr[u + 1] {
            let v: usize = snap.col_idx[k] as usize;
            proof {
                snap.lemma_slot_is_arc(u as int, k as int);
                lemma_reach_self(snap.edges@, u as int);
                lemma_reach_arc(snap.edges@, u as int, u as int, v as int);
            }
            if search.index[v] == UNMET {
                proof {
                    assert(!search.visited(v as int));
                }
                search.discover(snap, v);
                proof {
                    assert(search.on(u as int)) by {
                        assert(search.on_stack@[u as int]);
                    }
                    lemma_fresh_is_late(*snap, *search);
                    assert(search.path@.last() == v);
                    assert(search.cursor@[u as int] == k);
                }
                let ghost mid = *search;
                search.advance(snap, u);
                proof {
                    lemma_numbers_kept(was, mid, n as int);
                    lemma_numbers_kept(mid, *search, n as int);
                    assert(mid.left(*snap) == was.left(*snap));
                    assert forall|x: int| 0 <= x < n && #[trigger] search.settled(x) implies
                        was.settled(x) by {
                        assert(search.on_stack@[x] == mid.on_stack@[x]);
                        assert(search.index@[x] == mid.index@[x]);
                        assert(x != v);
                    }
                    assert forall|x: int| 0 <= x < n && x != v implies #[trigger] search.visited(x)
                        == was.visited(x) by {
                        assert(search.index@[x] == mid.index@[x]);
                        assert(mid.visited(x) == was.visited(x));
                    }
                    assert(was.keeps_settled(*search, n as int)) by {
                        assert forall|x: int| 0 <= x < n && #[trigger] was.settled(x) implies
                            search.settled(x) && search.component@[x] == was.component@[x] by {
                            assert(mid.settled(x));
                        }
                    }
                    assert(was.cursor@[v as int] == snap.row_ptr@[v as int]);
                    lemma_log_discover(
                        *snap,
                        was,
                        *search,
                        base@,
                        root as int,
                        log@,
                        u,
                        v,
                    );
                    assert forall|x: int| 0 <= x < n && #[trigger] before@.visited(x) implies
                        search.visited(x) by {
                        assert(was.visited(x));
                        assert(mid.visited(x));
                    }
                    assert forall|x: int|
                        0 <= x < n && !#[trigger] search.visited(x) implies search.cursor@[x]
                        == snap.row_ptr@[x] by {
                        assert(!mid.visited(x));
                        assert(x != v);
                        assert(!was.visited(x));
                        assert(x != u);
                    }
                }
                *log = Ghost(
                    Log {
                        entry: log@.entry.push(enter(so_far(*snap, was, log@.done), v as int)),
                        done: log@.done,
                        last: log@.last,
                    },
                );
            } else {
                if search.on_stack[v] {
                    assert(search.on(v as int));
                    search.lower(snap, u, v);
                }
                let ghost mid = *search;
                proof {
                    assert(mid.on(u as int)) by {
                        assert(mid.on_stack@[u as int]);
                    }
                    assert(mid.visited(v as int)) by {
                        assert(mid.index@[v as int] != UNMET);
                    }
                    assert forall|i: int|
                        0 <= i < mid.path@.len() && #[trigger] mid.under(i, u as int) && mid.on(
                            v as int,
                        ) implies mid.low@[mid.at(i)] <= mid.when(v as int) by {
                        lemma_top_under(*snap, mid, i);
                        assert(was.on_stack@[v as int]) by {
                            assert(mid.on_stack@[v as int]);
                        }
                    }
                    assert(mid.left(*snap) == was.left(*snap));
                }
                search.advance(snap, u);
                proof {
                    assert(was.keeps_settled(mid, n as int));
                    lemma_numbers_kept(was, mid, n as int);
                    lemma_numbers_kept(mid, *search, n as int);
                    assert(was.keeps_settled(*search, n as int)) by {
                        assert forall|x: int| 0 <= x < n && #[trigger] was.settled(x) implies
                            search.settled(x) && search.component@[x] == was.component@[x] by {
                            assert(mid.settled(x));
                        }
                    }
                    assert(was.visited(v as int));
                    lemma_log_advance(*snap, was, *search, base@, root as int, log@, u);
                    assert forall|x: int| 0 <= x < n && #[trigger] before@.visited(x) implies
                        search.visited(x) by {
                        assert(was.visited(x));
                    }
                    assert forall|x: int|
                        0 <= x < n && !#[trigger] search.visited(x) implies search.cursor@[x]
                        == snap.row_ptr@[x] by {
                        assert(!was.visited(x));
                        assert(x != u);
                    }
                }
            }
        } else {
            if search.low[u] == search.index[u] {
                proof {
                    lemma_room_for_one(*snap, *search);
                }
                search.close(snap, u);
                proof {
                    lemma_number_added(was, *search, n as int, u as int);
                    let entry = log@.entry.drop_last();
                    let last = log@.last.push(log@.done.len() as int);
                    lemma_tour_leave(*snap, was, *search, base@, root as int, log@, last, u);
                    lemma_ranked_closed(*snap, was, *search, log@, entry, u);
                }
                *log = Ghost(
                    Log {
                        entry: log@.entry.drop_last(),
                        done: log@.done.push(u as int),
                        last: log@.last.push(log@.done.len() as int),
                    },
                );
            } else {
                proof {
                    lemma_low_below(*snap, *search);
                }
                search.retire(snap, u);
                let ghost new = Log {
                    entry: log@.entry.drop_last(),
                    done: log@.done.push(u as int),
                    last: log@.last,
                };
                proof {
                    lemma_numbers_kept(was, *search, n as int);
                    lemma_tour_leave(
                        *snap,
                        was,
                        *search,
                        base@,
                        root as int,
                        log@,
                        log@.last,
                        u,
                    );
                    assert forall|x: int| 0 <= x < n && #[trigger] search.settled(x) implies
                        was.settled(x) by {
                        assert(search.on_stack@[x] == was.on_stack@[x]);
                    }
                    assert(new.done.take(log@.done.len() as int) =~= log@.done);
                    assert(!search.settled(u as int)) by {
                        assert(search.on_stack@[u as int]);
                    }
                    lemma_ranked_same(*snap, was, *search, log@, new);
                }
                *log = Ghost(new);
            }
            proof {
                assert(search.left(*snap) == was.left(*snap));
                assert forall|x: int| 0 <= x < n && #[trigger] before@.visited(x) implies
                    search.visited(x) by {
                    assert(was.visited(x));
                }
                assert forall|x: int|
                    0 <= x < n && !#[trigger] search.visited(x) implies search.cursor@[x]
                    == snap.row_ptr@[x] by {
                    assert(!was.visited(x));
                }
            }
        }
    }
}

} // verus!
