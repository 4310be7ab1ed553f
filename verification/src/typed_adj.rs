//! Adjacency of one relationship type with sorted rows.

use vstd::prelude::*;

use crate::counting::{type_admits, type_ok};
use crate::csr::{row_bounds, CsrSnapshot, Edge};
use crate::schema::{EdgeId, TypeId};
use crate::sums::{lemma_sum_filter, lemma_sum_map, lemma_sum_multiset, sum};

verus! {

/// A neighbor and the edge that leads to it.
pub type Link = (u32, EdgeId);

/// The order of links: by neighbor, then by edge id.
pub open spec fn link_le(a: Link, b: Link) -> bool {
    a.0 < b.0 || (a.0 == b.0 && a.1 <= b.1)
}

/// Links in ascending order.
pub open spec fn links_sorted(s: Seq<Link>) -> bool {
    forall|i: int, j: int| 0 <= i < j < s.len() ==> link_le(s[i], s[j])
}

/// The predicate that holds of the edges of the wanted type.
pub open spec fn of_type(want: Option<TypeId>) -> spec_fn(Edge) -> bool {
    |e: Edge| type_admits(want, e.ty)
}

/// An edge seen from its source.
pub open spec fn forward_link() -> spec_fn(Edge) -> Link {
    |e: Edge| (e.dst as u32, e.id)
}

/// An edge seen from its destination.
pub open spec fn backward_link() -> spec_fn(Edge) -> Link {
    |e: Edge| (e.src as u32, e.id)
}

/// The links of a row: its edges of the wanted type.
pub open spec fn links_of(row: Seq<Edge>, want: Option<TypeId>, link: spec_fn(Edge) -> Link) -> Seq<
    Link,
> {
    row.filter(of_type(want)).map_values(link)
}

/// Per-row adjacency restricted to one relationship type, with each row sorted
/// by `(neighbor, edge id)`, so that intersections run as sorted merges and
/// parallel edges form contiguous runs.
pub struct TypedSortedAdj {
    pub ptr: Vec<usize>,
    pub adj: Vec<Link>,
}

impl TypedSortedAdj {
    /// Row boundaries for `n` rows.
    pub open spec fn wf(&self, n: int) -> bool {
        row_bounds(self.ptr@, n, self.adj@.len() as int)
    }

    /// The links of row `d`.
    pub open spec fn links(&self, d: int) -> Seq<Link> {
        self.adj@.subrange(self.ptr@[d] as int, self.ptr@[d + 1] as int)
    }

    /// Row `d`.
    pub fn row(&self, d: usize) -> (r: &[Link])
        requires
            d + 1 < self.ptr@.len(),
            self.ptr@[d as int] <= self.ptr@[d + 1] <= self.adj@.len(),
        ensures
            r@ == self.links(d as int),
    {
        assert(d + 1 < self.ptr.len());
        let lo: usize = self.ptr[d];
        let hi: usize = self.ptr[d + 1];
        vstd::slice::slice_subrange(self.adj.as_slice(), lo, hi)
    }
}

/// Sorts links. Trusted: `slice::sort_unstable` rearranges the items into
/// ascending order, which for pairs is by the first component, then by the
/// second.
#[verifier::external_body]
fn sort_links(links: &mut Vec<Link>)
    ensures
        links_sorted(final(links)@),
        final(links)@.to_multiset() == old(links)@.to_multiset(),
{
    links.sort_unstable();
}

/// Nodes in strictly ascending order.
pub open spec fn nodes_ascending(s: Seq<u32>) -> bool {
    forall|i: int, j: int| 0 <= i < j < s.len() ==> s[i] < s[j]
}

/// Sorts distinct nodes into ascending order.
pub fn sort_nodes(nodes: &mut Vec<u32>)
    requires
        old(nodes)@.no_duplicates(),
    ensures
        nodes_ascending(final(nodes)@),
        final(nodes)@.len() == old(nodes)@.len(),
        final(nodes)@.to_set() == old(nodes)@.to_set(),
{
    let ghost before = nodes@;
    let mut links: Vec<Link> = Vec::new();
    let mut i: usize = 0;
    while i < nodes.len()
        invariant
            i <= nodes@.len(),
            nodes@ == before,
            links@ == before.take(i as int).map_values(|v: u32| (v, 0u64)),
        decreases nodes@.len() - i,
    {
        links.push((nodes[i], 0u64));
        assert(links@ =~= before.take(i + 1).map_values(|v: u32| (v, 0u64)));
        i = i + 1;
    }
    assert(before.take(i as int) =~= before);
    let ghost unsorted = links@;
    sort_links(&mut links);
    let ghost sorted = links@;
    let mut out: Vec<u32> = Vec::new();
    let mut i: usize = 0;
    while i < links.len()
        invariant
            i <= links@.len(),
            links@ == sorted,
            out@.len() == i,
            forall|k: int| 0 <= k < i ==> #[trigger] out@[k] == sorted[k].0,
        decreases links@.len() - i,
    {
        out.push(links[i].0);
        i = i + 1;
    }
    proof {
        unsorted.to_multiset_ensures();
        sorted.to_multiset_ensures();
        assert forall|k: int| 0 <= k < before.len() implies #[trigger] unsorted[k] == (
            before[k],
            0u64,
        ) by {}
        assert(unsorted.no_duplicates());
        unsorted.lemma_multiset_has_no_duplicates();
        sorted.lemma_multiset_has_no_duplicates_conv();
        assert forall|k: int| 0 <= k < sorted.len() implies (#[trigger] sorted[k]).1 == 0
            && before.contains(sorted[k].0) by {
            vstd::seq_lib::to_multiset_contains(sorted, sorted[k]);
            vstd::seq_lib::to_multiset_contains(unsorted, sorted[k]);
            assert(sorted.contains(sorted[k]));
            assert(unsorted.contains(sorted[k]));
            let j = choose|j: int| 0 <= j < unsorted.len() && unsorted[j] == sorted[k];
            assert(unsorted[j] == (before[j], 0u64));
        }
        assert forall|k: int| 0 <= k < before.len() implies out@.contains(
            #[trigger] before[k],
        ) by {
            vstd::seq_lib::to_multiset_contains(sorted, unsorted[k]);
            vstd::seq_lib::to_multiset_contains(unsorted, unsorted[k]);
            assert(unsorted.contains(unsorted[k]));
            assert(sorted.contains(unsorted[k]));
            let j = choose|j: int| 0 <= j < sorted.len() && sorted[j] == unsorted[k];
            assert(out@[j] == before[k]);
        }
        assert(out@.to_set() =~= before.to_set());
        assert(nodes_ascending(out@)) by {
            assert forall|a: int, b: int| 0 <= a < b < out@.len() implies out@[a] < out@[b] by {
                assert(link_le(sorted[a], sorted[b]));
                assert(sorted[a] != sorted[b]);
                assert(sorted[a].1 == 0 && sorted[b].1 == 0);
            }
        }
    }
    *nodes = out;
}

/// Collects row `d` of the arrays, filtered to the wanted type and sorted.
fn sorted_row(
    ptr: &Vec<usize>,
    col: &Vec<u32>,
    types: &Vec<TypeId>,
    ids: &Vec<EdgeId>,
    d: usize,
    want: Option<TypeId>,
    row: Ghost<Seq<Edge>>,
    link: Ghost<spec_fn(Edge) -> Link>,
) -> (links: Vec<Link>)
    requires
        d + 1 < ptr@.len(),
        ptr@[d as int] <= ptr@[d + 1] <= col@.len(),
        types@.len() == col@.len(),
        ids@.len() == col@.len(),
        row@.len() == ptr@[d + 1] - ptr@[d as int],
        forall|i: int|
            0 <= i < row@.len() ==> (#[trigger] row@[i]).ty == types@[ptr@[d as int] + i] && link@(
                row@[i],
            ) == (col@[ptr@[d as int] + i], ids@[ptr@[d as int] + i]),
    ensures
        links_sorted(links@),
        links@.to_multiset() == links_of(row@, want, link@).to_multiset(),
        links@.len() <= row@.len(),
{
    assert(d + 1 < ptr.len());
    let lo: usize = ptr[d];
    let hi: usize = ptr[d + 1];
    let mut links: Vec<Link> = Vec::new();
    let mut k: usize = lo;
    proof {
        reveal(Seq::filter);
        assert(row@.take(0) =~= Seq::empty());
        assert(links_of(row@.take(0), want, link@) =~= Seq::empty());
    }
    while k < hi
        invariant
            d + 1 < ptr@.len(),
            lo == ptr@[d as int],
            hi == ptr@[d + 1],
            lo <= k <= hi <= col@.len(),
            types@.len() == col@.len(),
            ids@.len() == col@.len(),
            row@.len() == hi - lo,
            forall|i: int|
                0 <= i < row@.len() ==> (#[trigger] row@[i]).ty == types@[lo + i] && link@(row@[i])
                    == (col@[lo + i], ids@[lo + i]),
            links@ == links_of(row@.take(k - lo), want, link@),
            links@.len() <= k - lo,
        decreases hi - k,
    {
        let ghost links0 = links@;
        proof {
            reveal(Seq::filter);
            let i = k - lo;
            assert(row@.take(i + 1).drop_last() =~= row@.take(i));
            assert(row@.take(i + 1).last() == row@[i]);
        }
        if type_ok(want, types[k]) {
            links.push((col[k], ids[k]));
            assert(links@ =~= links_of(row@.take(k + 1 - lo), want, link@));
        }
        k = k + 1;
    }
    assert(row@.take(hi - lo) =~= row@);
    proof {
        links@.to_multiset_ensures();
    }
    let ghost before = links@;
    sort_links(&mut links);
    proof {
        links@.to_multiset_ensures();
        before.to_multiset_ensures();
    }
    links
}

/// Forward adjacency filtered to `want`, rows sorted by `(destination, edge id)`.
pub fn typed_out_sorted(snap: &CsrSnapshot, want: Option<TypeId>) -> (t: TypedSortedAdj)
    requires
        snap.wf(),
    ensures
        t.wf(snap.n() as int),
        forall|d: int|
            0 <= d < snap.n() ==> links_sorted(#[trigger] t.links(d)) && t.links(d).to_multiset()
                == links_of(snap.out_row(d), want, forward_link()).to_multiset(),
{
    let n: usize = snap.dense_to_id.len();
    let mut ptr: Vec<usize> = Vec::new();
    let mut adj: Vec<Link> = Vec::new();
    ptr.push(0);
    let mut d: usize = 0;
    while d < n
        invariant
            snap.wf(),
            n == snap.n(),
            d <= n,
            ptr@.len() == d + 1,
            ptr@[0] == 0,
            ptr@[d as int] == adj@.len(),
            adj@.len() <= snap.row_ptr@[d as int],
            forall|c: int| #![trigger ptr@[c]] 0 <= c < d ==> ptr@[c] <= ptr@[c + 1],
            forall|c: int| 0 <= c <= d ==> #[trigger] ptr@[c] <= adj@.len(),
            forall|c: int|
                0 <= c < d ==> links_sorted(
                    #[trigger] adj@.subrange(ptr@[c] as int, ptr@[c + 1] as int),
                ) && adj@.subrange(ptr@[c] as int, ptr@[c + 1] as int).to_multiset() == links_of(
                    snap.out_row(c),
                    want,
                    forward_link(),
                ).to_multiset(),
        decreases n - d,
    {
        let ghost row = snap.out_row(d as int);
        let mut links: Vec<Link> = sorted_row(
            &snap.row_ptr,
            &snap.col_idx,
            &snap.edge_type,
            &snap.edge_id,
            d,
            want,
            Ghost(row),
            Ghost(forward_link()),
        );
        let ghost adj0 = adj@;
        let ghost ptr0 = ptr@;
        let ghost links0 = links@;
        adj.append(&mut links);
        ptr.push(adj.len());
        proof {
            assert forall|c: int| 0 <= c < d + 1 implies links_sorted(
                #[trigger] adj@.subrange(ptr@[c] as int, ptr@[c + 1] as int),
            ) && adj@.subrange(ptr@[c] as int, ptr@[c + 1] as int).to_multiset() == links_of(
                snap.out_row(c),
                want,
                forward_link(),
            ).to_multiset() by {
                if c < d {
                    assert(ptr0[c] <= ptr0[c + 1]);
                    assert(ptr0[c + 1] <= adj0.len());
                    assert(adj@.subrange(ptr@[c] as int, ptr@[c + 1] as int) =~= adj0.subrange(
                        ptr0[c] as int,
                        ptr0[c + 1] as int,
                    ));
                } else {
                    assert(adj@.subrange(ptr@[c] as int, ptr@[c + 1] as int) =~= links0);
                }
            }
        }
        d = d + 1;
    }
    TypedSortedAdj { ptr, adj }
}

/// Transposed adjacency filtered to `want`, rows sorted by `(source, edge id)`.
pub fn typed_in_sorted(snap: &CsrSnapshot, want: Option<TypeId>) -> (t: TypedSortedAdj)
    requires
        snap.wf(),
    ensures
        t.wf(snap.n() as int),
        forall|d: int|
            0 <= d < snap.n() ==> links_sorted(#[trigger] t.links(d)) && t.links(d).to_multiset()
                == links_of(snap.in_row(d), want, backward_link()).to_multiset(),
{
    let n: usize = snap.dense_to_id.len();
    let mut ptr: Vec<usize> = Vec::new();
    let mut adj: Vec<Link> = Vec::new();
    ptr.push(0);
    let mut d: usize = 0;
    while d < n
        invariant
            snap.wf(),
            n == snap.n(),
            d <= n,
            ptr@.len() == d + 1,
            ptr@[0] == 0,
            ptr@[d as int] == adj@.len(),
            adj@.len() <= snap.in_row_ptr@[d as int],
            forall|c: int| #![trigger ptr@[c]] 0 <= c < d ==> ptr@[c] <= ptr@[c + 1],
            forall|c: int| 0 <= c <= d ==> #[trigger] ptr@[c] <= adj@.len(),
            forall|c: int|
                0 <= c < d ==> links_sorted(
                    #[trigger] adj@.subrange(ptr@[c] as int, ptr@[c + 1] as int),
                ) && adj@.subrange(ptr@[c] as int, ptr@[c + 1] as int).to_multiset() == links_of(
                    snap.in_row(c),
                    want,
                    backward_link(),
                ).to_multiset(),
        decreases n - d,
    {
        let ghost row = snap.in_row(d as int);
        let mut links: Vec<Link> = sorted_row(
            &snap.in_row_ptr,
            &snap.in_col_idx,
            &snap.in_edge_type,
            &snap.in_edge_id,
            d,
            want,
            Ghost(row),
            Ghost(backward_link()),
        );
        let ghost adj0 = adj@;
        let ghost ptr0 = ptr@;
        let ghost links0 = links@;
        adj.append(&mut links);
        ptr.push(adj.len());
        proof {
            assert forall|c: int| 0 <= c < d + 1 implies links_sorted(
                #[trigger] adj@.subrange(ptr@[c] as int, ptr@[c + 1] as int),
            ) && adj@.subrange(ptr@[c] as int, ptr@[c + 1] as int).to_multiset() == links_of(
                snap.in_row(c),
                want,
                backward_link(),
            ).to_multiset() by {
                if c < d {
                    assert(ptr0[c] <= ptr0[c + 1]);
                    assert(ptr0[c + 1] <= adj0.len());
                    assert(adj@.subrange(ptr@[c] as int, ptr@[c + 1] as int) =~= adj0.subrange(
                        ptr0[c] as int,
                        ptr0[c + 1] as int,
                    ));
                } else {
                    assert(adj@.subrange(ptr@[c] as int, ptr@[c + 1] as int) =~= links0);
                }
            }
        }
        d = d + 1;
    }
    TypedSortedAdj { ptr, adj }
}

/// A sum over a typed row, in whatever order, weighs the edges of the row.
pub proof fn lemma_links_sum(
    links: Seq<Link>,
    row: Seq<Edge>,
    want: Option<TypeId>,
    link: spec_fn(Edge) -> Link,
    f: spec_fn(Link) -> nat,
)
    requires
        links.to_multiset() == links_of(row, want, link).to_multiset(),
    ensures
        sum(links, f) == sum(
            row,
            |e: Edge|
                if of_type(want)(e) {
                    f(link(e))
                } else {
                    0
                },
        ),
{
    let kept = row.filter(of_type(want));
    lemma_sum_multiset(links, links_of(row, want, link), f);
    lemma_sum_map(kept, link, f);
    let g = |e: Edge| f(link(e));
    lemma_sum_filter(row, of_type(want), g);
    crate::sums::lemma_sum_ext(
        row,
        |e: Edge|
            if of_type(want)(e) {
                g(e)
            } else {
                0
            },
        |e: Edge|
            if of_type(want)(e) {
                f(link(e))
            } else {
                0
            },
    );
}

} // verus!
