//! Compressed sparse rows: the read-optimised image of a graph's edges.

use vstd::prelude::*;

use crate::grouping::{group_by_key, lemma_positions_in_range, positions, Grouping};
use crate::schema::{EdgeId, NodeId, TypeId};
use crate::sums::of_class;

verus! {

/// One edge of the edge table, endpoints by node id.
#[derive(Debug, Clone, Copy, PartialEq, Eq, Structural)]
pub struct EdgeRow {
    pub id: EdgeId,
    pub src: NodeId,
    pub dst: NodeId,
    pub edge_type: TypeId,
}

/// One edge with its endpoints as dense indices; the model of an edge slot.
pub struct Edge {
    pub id: EdgeId,
    pub src: int,
    pub dst: int,
    pub ty: TypeId,
}

/// Ids in strictly ascending order.
pub open spec fn ascending(ids: Seq<u64>) -> bool {
    forall|i: int, j: int| 0 <= i < j < ids.len() ==> ids[i] < ids[j]
}

/// Edges in strictly ascending id order.
pub open spec fn edges_ascending(edges: Seq<Edge>) -> bool {
    forall|i: int, j: int| 0 <= i < j < edges.len() ==> edges[i].id < edges[j].id
}

/// The source of an edge.
pub open spec fn source() -> spec_fn(Edge) -> int {
    |e: Edge| e.src
}

/// The destination of an edge.
pub open spec fn target() -> spec_fn(Edge) -> int {
    |e: Edge| e.dst
}

/// The predicate that holds of the edges that leave `d`.
pub open spec fn leaving(d: int) -> spec_fn(Edge) -> bool {
    of_class(source(), d)
}

/// The predicate that holds of the edges that enter `d`.
pub open spec fn entering(d: int) -> spec_fn(Edge) -> bool {
    of_class(target(), d)
}

/// An edge table row as an edge between the positions of its endpoints.
pub open spec fn dense_edge(ids: Seq<NodeId>, row: EdgeRow) -> Edge {
    Edge { id: row.id, src: ids.index_of(row.src), dst: ids.index_of(row.dst), ty: row.edge_type }
}

/// The edge table with its endpoints replaced by their positions in `ids`.
pub open spec fn dense_edges(ids: Seq<NodeId>, rows: Seq<EdgeRow>) -> Seq<Edge> {
    rows.map_values(|row: EdgeRow| dense_edge(ids, row))
}

/// A table that can be compressed: node ids and edge ids ascend, and every
/// endpoint is a node.
pub open spec fn valid_table(ids: Seq<NodeId>, rows: Seq<EdgeRow>) -> bool {
    &&& ascending(ids)
    &&& ids.len() < u32::MAX
    &&& forall|i: int, j: int| 0 <= i < j < rows.len() ==> rows[i].id < rows[j].id
    &&& forall|i: int|
        0 <= i < rows.len() ==> ids.contains((#[trigger] rows[i]).src) && ids.contains(rows[i].dst)
}

/// The edges of a graph in row order, out of each node and into each node.
///
/// Nodes are addressed by their position in the ascending id list. Within a row
/// edges stand in ascending edge id order.
pub struct CsrSnapshot {
    pub dense_to_id: Vec<NodeId>,
    pub row_ptr: Vec<usize>,
    pub col_idx: Vec<u32>,
    pub edge_type: Vec<TypeId>,
    pub edge_id: Vec<EdgeId>,
    pub in_row_ptr: Vec<usize>,
    pub in_col_idx: Vec<u32>,
    pub in_edge_type: Vec<TypeId>,
    pub in_edge_id: Vec<EdgeId>,
    pub edges: Ghost<Seq<Edge>>,
}

/// Row boundaries over `m` slots: they start at zero, ascend and end at `m`.
pub open spec fn row_bounds(ptr: Seq<usize>, n: int, m: int) -> bool {
    &&& ptr.len() == n + 1
    &&& ptr[0] == 0
    &&& ptr[n] == m
    &&& forall|d: int| #![trigger ptr[d]] 0 <= d < n ==> ptr[d] <= ptr[d + 1]
    &&& forall|d: int| 0 <= d <= n ==> #[trigger] ptr[d] <= m
}

impl CsrSnapshot {
    /// The number of nodes.
    pub open spec fn n(&self) -> nat {
        self.dense_to_id@.len()
    }

    /// The row of `d`: the edges that leave it, as the arrays hold them.
    pub open spec fn out_row(&self, d: int) -> Seq<Edge> {
        Seq::new(
            (self.row_ptr@[d + 1] - self.row_ptr@[d]) as nat,
            |i: int|
                Edge {
                    id: self.edge_id@[self.row_ptr@[d] + i],
                    src: d,
                    dst: self.col_idx@[self.row_ptr@[d] + i] as int,
                    ty: self.edge_type@[self.row_ptr@[d] + i],
                },
        )
    }

    /// The transposed row of `d`: the edges that enter it, as the arrays hold them.
    pub open spec fn in_row(&self, d: int) -> Seq<Edge> {
        Seq::new(
            (self.in_row_ptr@[d + 1] - self.in_row_ptr@[d]) as nat,
            |i: int|
                Edge {
                    id: self.in_edge_id@[self.in_row_ptr@[d] + i],
                    src: self.in_col_idx@[self.in_row_ptr@[d] + i] as int,
                    dst: d,
                    ty: self.in_edge_type@[self.in_row_ptr@[d] + i],
                },
        )
    }

    /// The arrays are well formed and hold exactly `edges`, in both directions.
    pub open spec fn wf(&self) -> bool {
        let n = self.n() as int;
        let m = self.edges@.len() as int;
        &&& ascending(self.dense_to_id@)
        &&& n < u32::MAX
        &&& self.col_idx@.len() == m
        &&& self.edge_type@.len() == m
        &&& self.edge_id@.len() == m
        &&& self.in_col_idx@.len() == m
        &&& self.in_edge_type@.len() == m
        &&& self.in_edge_id@.len() == m
        &&& row_bounds(self.row_ptr@, n, m)
        &&& row_bounds(self.in_row_ptr@, n, m)
        &&& forall|k: int| 0 <= k < m ==> #[trigger] self.col_idx@[k] < n
        &&& forall|k: int| 0 <= k < m ==> #[trigger] self.in_col_idx@[k] < n
        &&& edges_ascending(self.edges@)
        &&& forall|k: int|
            0 <= k < m ==> 0 <= (#[trigger] self.edges@[k]).src < n && 0 <= self.edges@[k].dst < n
        &&& forall|d: int|
            0 <= d < n ==> #[trigger] self.out_row(d) == self.edges@.filter(leaving(d))
        &&& forall|d: int|
            0 <= d < n ==> #[trigger] self.in_row(d) == self.edges@.filter(entering(d))
    }

    /// The snapshot is well formed and is the image of this table.
    pub open spec fn of_table(&self, ids: Seq<NodeId>, rows: Seq<EdgeRow>) -> bool {
        &&& self.wf()
        &&& self.dense_to_id@ == ids
        &&& self.edges@ == dense_edges(ids, rows)
    }

    /// The dense index of node `id`.
    pub fn dense(&self, id: NodeId) -> (d: Option<usize>)
        requires
            ascending(self.dense_to_id@),
        ensures
            d matches Some(i) ==> i < self.n() && self.dense_to_id@[i as int] == id,
            d is None ==> !self.dense_to_id@.contains(id),
    {
        position_of(&self.dense_to_id, id)
    }

    /// Compresses an edge table.
    pub fn build(ids: &Vec<NodeId>, rows: &Vec<EdgeRow>) -> (snap: CsrSnapshot)
        requires
            valid_table(ids@, rows@),
        ensures
            snap.of_table(ids@, rows@),
    {
        let n: usize = ids.len();
        let m: usize = rows.len();
        let mut srcs: Vec<u32> = Vec::new();
        let mut dsts: Vec<u32> = Vec::new();
        let mut i: usize = 0;
        while i < m
            invariant
                i <= m,
                m == rows@.len(),
                n == ids@.len(),
                valid_table(ids@, rows@),
                srcs@.len() == i,
                dsts@.len() == i,
                forall|k: int|
                    0 <= k < i ==> #[trigger] srcs@[k] < n && ids@[srcs@[k] as int] == rows@[k].src,
                forall|k: int|
                    0 <= k < i ==> #[trigger] dsts@[k] < n && ids@[dsts@[k] as int] == rows@[k].dst,
            decreases m - i,
        {
            assert(ids@.contains(rows@[i as int].src));
            let s = position_of(ids, rows[i].src);
            let d = position_of(ids, rows[i].dst);
            if let (Some(s), Some(d)) = (s, d) {
                srcs.push(s as u32);
                dsts.push(d as u32);
            }
            i = i + 1;
        }
        let ghost edges = dense_edges(ids@, rows@);
        proof {
            assert forall|k: int| 0 <= k < m implies (#[trigger] edges[k]).src == srcs@[k]
                && edges[k].dst == dsts@[k] by {
                lemma_index_unique(ids@, srcs@[k] as int);
                lemma_index_unique(ids@, dsts@[k] as int);
            }
        }
        let by_src: Grouping = group_by_key(&srcs, n);
        let by_dst: Grouping = group_by_key(&dsts, n);
        let mut col_idx: Vec<u32> = Vec::new();
        let mut edge_type: Vec<TypeId> = Vec::new();
        let mut edge_id: Vec<EdgeId> = Vec::new();
        let mut in_col_idx: Vec<u32> = Vec::new();
        let mut in_edge_type: Vec<TypeId> = Vec::new();
        let mut in_edge_id: Vec<EdgeId> = Vec::new();
        proof {
            lemma_order_in_range(by_src, srcs@, n as int);
            lemma_order_in_range(by_dst, dsts@, n as int);
        }
        let mut k: usize = 0;
        while k < m
            invariant
                k <= m,
                m == rows@.len(),
                srcs@.len() == m,
                dsts@.len() == m,
                by_src.order@.len() == m,
                by_dst.order@.len() == m,
                forall|j: int| 0 <= j < m ==> #[trigger] by_src.order@[j] < m,
                forall|j: int| 0 <= j < m ==> #[trigger] by_dst.order@[j] < m,
                col_idx@.len() == k,
                edge_type@.len() == k,
                edge_id@.len() == k,
                in_col_idx@.len() == k,
                in_edge_type@.len() == k,
                in_edge_id@.len() == k,
                forall|j: int|
                    0 <= j < k ==> #[trigger] col_idx@[j] == dsts@[by_src.order@[j] as int],
                forall|j: int|
                    0 <= j < k ==> #[trigger] edge_type@[j]
                        == rows@[by_src.order@[j] as int].edge_type,
                forall|j: int|
                    0 <= j < k ==> #[trigger] edge_id@[j] == rows@[by_src.order@[j] as int].id,
                forall|j: int|
                    0 <= j < k ==> #[trigger] in_col_idx@[j] == srcs@[by_dst.order@[j] as int],
                forall|j: int|
                    0 <= j < k ==> #[trigger] in_edge_type@[j]
                        == rows@[by_dst.order@[j] as int].edge_type,
                forall|j: int|
                    0 <= j < k ==> #[trigger] in_edge_id@[j] == rows@[by_dst.order@[j] as int].id,
            decreases m - k,
        {
            let o: usize = by_src.order[k];
            col_idx.push(dsts[o]);
            edge_type.push(rows[o].edge_type);
            edge_id.push(rows[o].id);
            let t: usize = by_dst.order[k];
            in_col_idx.push(srcs[t]);
            in_edge_type.push(rows[t].edge_type);
            in_edge_id.push(rows[t].id);
            k = k + 1;
        }
        let dense_to_id: Vec<NodeId> = ids.clone();
        assert(dense_to_id@ =~= ids@);
        let snap = CsrSnapshot {
            dense_to_id,
            row_ptr: by_src.ptr,
            col_idx,
            edge_type,
            edge_id,
            in_row_ptr: by_dst.ptr,
            in_col_idx,
            in_edge_type,
            in_edge_id,
            edges: Ghost(edges),
        };
        proof {
            assert forall|d: int| 0 <= d < n implies #[trigger] snap.out_row(d)
                == snap.edges@.filter(leaving(d)) by {
                assert forall|i: int| 0 <= i < snap.out_row(d).len() implies #[trigger] snap.out_row(
                    d,
                )[i] == edges[by_src.order@[by_src.ptr@[d] + i] as int] by {
                    assert(by_src.ptr@[d + 1] <= m);
                    assert(by_src.ptr@[d] >= 0);
                    let o = by_src.order@[by_src.ptr@[d] + i] as int;
                    lemma_slot_key(by_src, srcs@, n as int, d, i);
                    assert(edges[o].src == srcs@[o]);
                }
                lemma_row_is_filter(by_src, srcs@, n as int, d, edges, source(), snap.out_row(d));
            }
            assert forall|d: int| 0 <= d < n implies #[trigger] snap.in_row(d)
                == snap.edges@.filter(entering(d)) by {
                assert forall|i: int| 0 <= i < snap.in_row(d).len() implies #[trigger] snap.in_row(
                    d,
                )[i] == edges[by_dst.order@[by_dst.ptr@[d] + i] as int] by {
                    assert(by_dst.ptr@[d + 1] <= m);
                    assert(by_dst.ptr@[d] >= 0);
                    let o = by_dst.order@[by_dst.ptr@[d] + i] as int;
                    lemma_slot_key(by_dst, dsts@, n as int, d, i);
                    assert(edges[o].src == srcs@[o]);
                }
                lemma_row_is_filter(by_dst, dsts@, n as int, d, edges, target(), snap.in_row(d));
            }
            assert forall|d: int| #![trigger snap.row_ptr@[d]] 0 <= d < n implies snap.row_ptr@[d]
                <= snap.row_ptr@[d + 1] by {
                assert(by_src.ptr@[d + 1] == by_src.ptr@[d] + positions(srcs@, d).len());
            }
            assert forall|d: int| #![trigger snap.in_row_ptr@[d]] 0 <= d
                < n implies snap.in_row_ptr@[d] <= snap.in_row_ptr@[d + 1] by {
                assert(by_dst.ptr@[d + 1] == by_dst.ptr@[d] + positions(dsts@, d).len());
            }
            assert forall|j: int| 0 <= j < m implies 0 <= (#[trigger] edges[j]).src < n && 0
                <= edges[j].dst < n by {
                assert(edges[j].src == srcs@[j]);
            }
        }
        snap
    }
}

/// The position of `id` in an ascending list.
pub fn position_of(ids: &Vec<u64>, id: u64) -> (d: Option<usize>)
    requires
        ascending(ids@),
    ensures
        d matches Some(i) ==> i < ids@.len() && ids@[i as int] == id,
        d is None ==> !ids@.contains(id),
{
    let mut lo: usize = 0;
    let mut hi: usize = ids.len();
    while lo < hi
        invariant
            lo <= hi <= ids@.len(),
            ascending(ids@),
            forall|i: int| 0 <= i < lo ==> #[trigger] ids@[i] < id,
            forall|i: int| hi <= i < ids@.len() ==> #[trigger] ids@[i] > id,
        decreases hi - lo,
    {
        let mid: usize = lo + (hi - lo) / 2;
        let v: u64 = ids[mid];
        if v == id {
            return Some(mid);
        }
        if v < id {
            lo = mid + 1;
        } else {
            hi = mid;
        }
    }
    None
}

/// In an ascending list every item stands once.
pub proof fn lemma_index_unique(ids: Seq<u64>, i: int)
    requires
        ascending(ids),
        0 <= i < ids.len(),
    ensures
        ids.index_of(ids[i]) == i,
{
    let j = ids.index_of(ids[i]);
    assert(ids.contains(ids[i]));
    assert(0 <= j < ids.len() && ids[j] == ids[i]);
}

/// Every position is in some group, so every entry of a grouping is a position.
proof fn lemma_order_in_range(g: Grouping, keys: Seq<u32>, n: int)
    requires
        g.groups(keys, n),
        n >= 0,
    ensures
        forall|j: int| 0 <= j < keys.len() ==> #[trigger] g.order@[j] < keys.len(),
{
    assert forall|j: int| 0 <= j < keys.len() implies #[trigger] g.order@[j] < keys.len() by {
        let d = lemma_group_of(g, keys, n, j);
        lemma_positions_in_range(keys, d);
        let i = j - g.ptr@[d];
        assert(g.ptr@[d + 1] == g.ptr@[d] + positions(keys, d).len());
        assert(g.order@[g.ptr@[d] + i] == positions(keys, d)[i]);
    }
}

/// Every slot lies in some group.
proof fn lemma_group_of(g: Grouping, keys: Seq<u32>, n: int, j: int) -> (d: int)
    requires
        g.groups(keys, n),
        n >= 0,
        0 <= j < keys.len(),
    ensures
        0 <= d < n,
        g.ptr@[d] <= j < g.ptr@[d + 1],
{
    lemma_group_of_from(g, keys, n, j, n)
}

proof fn lemma_group_of_from(g: Grouping, keys: Seq<u32>, n: int, j: int, hi: int) -> (d: int)
    requires
        g.groups(keys, n),
        0 <= hi <= n,
        0 <= j < g.ptr@[hi],
    ensures
        0 <= d < n,
        g.ptr@[d] <= j < g.ptr@[d + 1],
    decreases hi,
{
    if g.ptr@[hi - 1] <= j {
        hi - 1
    } else {
        lemma_group_of_from(g, keys, n, j, hi - 1)
    }
}

/// A slot of group `d` holds a position whose key is `d`.
proof fn lemma_slot_key(g: Grouping, keys: Seq<u32>, n: int, d: int, i: int)
    requires
        g.groups(keys, n),
        0 <= d < n,
        0 <= i < g.ptr@[d + 1] - g.ptr@[d],
    ensures
        0 <= g.order@[g.ptr@[d] + i] < keys.len(),
        keys[g.order@[g.ptr@[d] + i] as int] == d,
{
    assert(g.ptr@[d + 1] == g.ptr@[d] + positions(keys, d).len());
    lemma_positions_in_range(keys, d);
    assert(g.order@[g.ptr@[d] + i] == positions(keys, d)[i]);
}

/// A row filled by a grouping holds the edges of its class, in table order.
proof fn lemma_row_is_filter(
    g: Grouping,
    keys: Seq<u32>,
    n: int,
    d: int,
    edges: Seq<Edge>,
    class: spec_fn(Edge) -> int,
    row: Seq<Edge>,
)
    requires
        g.groups(keys, n),
        0 <= d < n,
        keys.len() == edges.len(),
        row.len() == g.ptr@[d + 1] - g.ptr@[d],
        forall|i: int| 0 <= i < row.len() ==> #[trigger] row[i] == edges[g.order@[g.ptr@[d]
            + i] as int],
        forall|i: int| 0 <= i < edges.len() ==> class(#[trigger] edges[i]) == keys[i],
    ensures
        row == edges.filter(of_class(class, d)),
{
    assert(g.ptr@[d + 1] == g.ptr@[d] + positions(keys, d).len());
    lemma_positions_filter(keys, edges, d, class);
    assert forall|i: int| 0 <= i < row.len() implies row[i] == edges.filter(
        of_class(class, d),
    )[i] by {
        assert(g.order@[g.ptr@[d] + i] == positions(keys, d)[i]);
    }
    assert(row =~= edges.filter(of_class(class, d)));
}

/// The items at the positions of a key are the items that a filter on the key keeps.
proof fn lemma_positions_filter(keys: Seq<u32>, items: Seq<Edge>, d: int, class: spec_fn(Edge) -> int)
    requires
        keys.len() == items.len(),
        forall|i: int| 0 <= i < items.len() ==> class(#[trigger] items[i]) == keys[i],
    ensures
        items.filter(of_class(class, d)).len() == positions(keys, d).len(),
        forall|j: int|
            0 <= j < positions(keys, d).len() ==> items.filter(of_class(class, d))[j]
                == items[#[trigger] positions(keys, d)[j]],
    decreases items.len(),
{
    reveal(Seq::filter);
    if items.len() > 0 {
        let k0 = keys.drop_last();
        let i0 = items.drop_last();
        assert forall|i: int| 0 <= i < i0.len() implies class(#[trigger] i0[i]) == k0[i] by {
            assert(i0[i] == items[i]);
        }
        lemma_positions_filter(k0, i0, d, class);
        lemma_positions_in_range(k0, d);
        assert(class(items[items.len() - 1]) == keys.last());
    }
}

} // verus!
