//! The kernels over a graph: each brings the snapshot up to date and reads it.

use std::collections::HashMap;

use vstd::prelude::*;

use crate::components::{component_roots, smallest_connected};
use crate::cost::Cost;
use crate::csr::{ascending, entering, leaving, CsrSnapshot, Edge};
use crate::depth_first::{detect_cycle, dfs, has_cycle, no_visit, visit};
use crate::dijkstra::{
    answers, cheaper_beyond, lowering_cycle, shortest_path_dijkstra, some_negative, WeightedPath,
    NEGATIVE_CYCLE,
};
use crate::error::Error;
use crate::flow::{lemma_slot_edge, maximum_flow, most_carried, slot_owners};
use crate::forest::{forest_of, spanning_forest};
use crate::graph::Graph;
use crate::image::{
    edge_list, is_edge, lemma_ascending_unique, lemma_store_lists, node_list,
};
use crate::paths::{all_shortest_paths, deep, ids_of, shortest_path, traced, walks_to};
use crate::schema::{EdgeId, NodeId, TypeId};
use crate::simple_paths::{all_paths, deep_option, extensions, ids_option, longer, longest_path};
use crate::store::{end_of, Content, Store};
use crate::store_edges::NeighborEntry;
use crate::tables::{number_of_name, Props, Table};
use crate::top_k::{shortest_path_top_k, shown, top_paths, Found};
use crate::traversal::{
    admitted, at_level, bfs, bfs_multi_source, capped_reach, dense_of, expand_rows, expansion, fits,
    known_seeds, lists, reachable, row_triples, size, within, Triple,
};
use crate::value::{float_bits, float_of, PropValue, Val};
use crate::weighted::{anywhere, in_row, least_costs};

verus! {

impl Graph {
    /// The nodes within `hops` steps of a node, in ascending order; none where
    /// there is no such node.
    pub fn bfs(&mut self, start: NodeId, hops: u8) -> (out: Vec<NodeId>)
        requires
            old(self).wf(),
            old(self).compressible(),
        ensures
            old(self).refreshed(*final(self)),
            !node_list(old(self)@).contains(start) ==> out@.len() == 0,
            node_list(old(self)@).contains(start) ==> lists(
                node_list(old(self)@),
                within(
                    edge_list(old(self)@),
                    set![dense_of(node_list(old(self)@), start)],
                    hops as nat,
                ),
                out@,
            ),
    {
        self.ensure_snapshot_fresh();
        bfs(&self.snapshot, start, hops)
    }

    /// The nodes within `hops` steps of any of the seeds, at most `max_nodes`
    /// of them, and whether the cap left out a node that can be reached.
    pub fn bfs_multi_source(
        &mut self,
        seeds: &[NodeId],
        hops: u8,
        max_nodes: Option<usize>,
    ) -> (r: (Vec<NodeId>, bool))
        requires
            old(self).wf(),
            old(self).compressible(),
        ensures
            old(self).refreshed(*final(self)),
            ({
                let ids = node_list(old(self)@);
                let known = known_seeds(ids, seeds@);
                let from = admitted(known, max_nodes).to_set();
                let kept = Set::new(|d: int| 0 <= d < ids.len() && r.0@.contains(ids[d]));
                &&& lists(ids, kept, r.0@)
                &&& capped_reach(edge_list(old(self)@), from, hops as nat, max_nodes, ids.len(), kept)
                &&& fits(max_nodes, r.0@.len())
                &&& r.1 == (!fits(max_nodes, known.len()) || !fits(
                    max_nodes,
                    size(within(edge_list(old(self)@), from, hops as nat), ids.len()),
                ))
            }),
    {
        self.ensure_snapshot_fresh();
        bfs_multi_source(&self.snapshot, seeds, hops, max_nodes)
    }

    /// The nodes that a depth-first search of at most `hops` steps visits, in
    /// the order in which it visits them.
    pub fn dfs(&mut self, start: NodeId, hops: u8) -> (out: Vec<NodeId>)
        requires
            old(self).wf(),
            old(self).compressible(),
        ensures
            old(self).refreshed(*final(self)),
            !node_list(old(self)@).contains(start) ==> out@ == seq![start],
            node_list(old(self)@).contains(start) ==> out@ == ids_of(
                node_list(old(self)@),
                visit(
                    edge_list(old(self)@),
                    no_visit(),
                    dense_of(node_list(old(self)@), start),
                    0,
                    hops as nat,
                ).order,
            ),
    {
        self.ensure_snapshot_fresh();
        dfs(&self.snapshot, start, hops)
    }

    /// Whether the graph has a directed cycle.
    pub fn detect_cycle(&mut self) -> (found: bool)
        requires
            old(self).wf(),
            old(self).compressible(),
        ensures
            old(self).refreshed(*final(self)),
            found == has_cycle(edge_list(old(self)@)),
    {
        self.ensure_snapshot_fresh();
        detect_cycle(&self.snapshot)
    }

    /// A walk with the fewest edges from one node to another.
    pub fn shortest_path(&mut self, src: NodeId, dst: NodeId) -> (r: Option<Vec<NodeId>>)
        requires
            old(self).wf(),
            old(self).compressible(),
        ensures
            old(self).refreshed(*final(self)),
            src == dst ==> (r matches Some(p) && p@ == seq![src]),
            src != dst ==> ({
                let ids = node_list(old(self)@);
                let s = dense_of(ids, src);
                let t = dense_of(ids, dst);
                if ids.contains(src) && ids.contains(dst) && reachable(
                    edge_list(old(self)@),
                    set![s],
                    t,
                ) {
                    r matches Some(p) && exists|q: Seq<int>| #[trigger]
                        traced(edge_list(old(self)@), s, t, q) && p@ == ids_of(ids, q)
                } else {
                    r is None
                }
            }),
    {
        self.ensure_snapshot_fresh();
        shortest_path(&self.snapshot, src, dst)
    }

    /// All walks with the fewest edges from one node to another.
    pub fn all_shortest_paths(&mut self, src: NodeId, dst: NodeId) -> (r: Vec<Vec<NodeId>>)
        requires
            old(self).wf(),
            old(self).compressible(),
        ensures
            old(self).refreshed(*final(self)),
            src == dst ==> deep(r@) == seq![seq![src]],
            src != dst ==> ({
                let ids = node_list(old(self)@);
                let s = dense_of(ids, src);
                let t = dense_of(ids, dst);
                if ids.contains(src) && ids.contains(dst) && reachable(
                    edge_list(old(self)@),
                    set![s],
                    t,
                ) {
                    forall|l: nat| #[trigger]
                        at_level(edge_list(old(self)@), set![s], t, l) ==> deep(r@) == walks_to(
                            ids,
                            edge_list(old(self)@),
                            s,
                            t,
                            l,
                        ).map_values(|q: Seq<int>| ids_of(ids, q))
                } else {
                    r@.len() == 0
                }
            }),
    {
        self.ensure_snapshot_fresh();
        all_shortest_paths(&self.snapshot, src, dst)
    }

    /// All paths from one node to another that visit no node twice.
    pub fn all_paths(&mut self, src: NodeId, dst: NodeId) -> (r: Vec<Vec<NodeId>>)
        requires
            old(self).wf(),
            old(self).compressible(),
        ensures
            old(self).refreshed(*final(self)),
            src == dst ==> deep(r@) == seq![seq![src]],
            src != dst ==> ({
                let ids = node_list(old(self)@);
                if ids.contains(src) && ids.contains(dst) {
                    deep(r@) == extensions(
                        edge_list(old(self)@),
                        seq![dense_of(ids, src)],
                        dense_of(ids, dst),
                        (ids.len() - 1) as nat,
                    ).map_values(|q: Seq<int>| ids_of(ids, q))
                } else {
                    r@.len() == 0
                }
            }),
    {
        self.ensure_snapshot_fresh();
        all_paths(&self.snapshot, src, dst)
    }

    /// A longest path from one node to another that visits no node twice.
    pub fn longest_path(&mut self, src: NodeId, dst: NodeId) -> (r: Option<Vec<NodeId>>)
        requires
            old(self).wf(),
            old(self).compressible(),
        ensures
            old(self).refreshed(*final(self)),
            src == dst ==> deep_option(r) == Some(seq![src]),
            src != dst ==> ({
                let ids = node_list(old(self)@);
                if ids.contains(src) && ids.contains(dst) {
                    deep_option(r) == ids_option(
                        ids,
                        longer(
                            None,
                            extensions(
                                edge_list(old(self)@),
                                seq![dense_of(ids, src)],
                                dense_of(ids, dst),
                                (ids.len() - 1) as nat,
                            ),
                        ),
                    )
                } else {
                    r is None
                }
            }),
    {
        self.ensure_snapshot_fresh();
        longest_path(&self.snapshot, src, dst)
    }

    /// The numbers that the edges have in the first of these properties that
    /// each has, in the order of the snapshot's rows; nothing where that one is
    /// no number or there is none.
    pub fn slot_numbers(&mut self, names: &[&str]) -> (out: Vec<Option<u64>>)
        requires
            old(self).wf(),
            old(self).compressible(),
        ensures
            old(self).refreshed(*final(self)),
            out@.len() == edge_list(old(self)@).len(),
            forall|k: int|
                0 <= k < out@.len() ==> #[trigger] out@[k] == number_in(
                    old(self)@.edges[final(self).snapshot.edge_id@[k]].props,
                    names@,
                    0,
                ),
    {
        let ghost c = self@;
        self.ensure_snapshot_fresh();
        let tails: Vec<usize> = slot_owners(&self.snapshot);
        let mut out: Vec<Option<u64>> = Vec::new();
        let mut k: usize = 0;
        while k < self.snapshot.edge_id.len()
            invariant
                self.wf(),
                !self.stale(),
                c == self@,
                k <= self.snapshot.edge_id@.len(),
                self.snapshot.edge_id@.len() == edge_list(c).len(),
                tails@.len() == edge_list(c).len(),
                forall|j: int|
                    0 <= j < tails@.len() ==> (#[trigger] tails@[j]) < self.snapshot.n() && in_row(
                        self.snapshot,
                        tails@[j] as int,
                        j,
                    ),
                out@.len() == k,
                forall|j: int|
                    0 <= j < k ==> #[trigger] out@[j] == number_in(
                        c.edges[self.snapshot.edge_id@[j]].props,
                        names@,
                        0,
                    ),
            decreases self.snapshot.edge_id@.len() - k,
        {
            let id: EdgeId = self.snapshot.edge_id[k];
            proof {
                assert(tails@[k as int] < self.snapshot.n());
                let i = lemma_slot_edge(self.snapshot, tails@[k as int] as int, k as int);
                lemma_store_lists(self.store);
                assert(is_edge(c.edges, node_list(c), edge_list(c)[i]));
            }
            let mut bits: Option<u64> = None;
            if let Some(record) = self.store.edges.get(id) {
                bits = first_number(&record.props, names);
            }
            out.push(bits);
            k = k + 1;
        }
        out
    }

    /// A cheapest walk from one node to another, where the edge at slot `k`
    /// weighs `weights[k]`. A cycle that can be reached and makes walks cheaper is an
    /// error.
    pub fn shortest_path_dijkstra<C: Cost>(
        &mut self,
        weights: &Vec<C>,
        src: NodeId,
        dst: NodeId,
    ) -> (r: Result<Option<WeightedPath<C>>, Error>)
        requires
            old(self).wf(),
            old(self).compressible(),
            weights@.len() == edge_list(old(self)@).len(),
        ensures
            old(self).refreshed(*final(self)),
            ({
                let ids = node_list(old(self)@);
                let s = dense_of(ids, src);
                let t = dense_of(ids, dst);
                if src == dst {
                    r matches Ok(Some(path)) && path.nodes@ == seq![src] && path.total_weight
                        == C::zero()
                } else if !ids.contains(src) || !ids.contains(dst) {
                    r matches Ok(None)
                } else {
                    &&& C::exact() && lowering_cycle(final(self).snapshot, weights@, s) ==> r is Err
                    &&& match r {
                        Err(e) => e == Error::InvalidArgument(NEGATIVE_CYCLE) && some_negative(
                            weights@,
                        ) && cheaper_beyond(final(self).snapshot, weights@, s),
                        Ok(found) => exists|dist: Seq<Option<C>>| #[trigger]
                            least_costs(final(self).snapshot, weights@, anywhere(), s, dist)
                                && answers(
                                final(self).snapshot,
                                weights@,
                                s,
                                t,
                                dist,
                                found,
                            ),
                    }
                }
            }),
    {
        self.ensure_snapshot_fresh();
        shortest_path_dijkstra(&self.snapshot, weights, src, dst)
    }

    /// At most `k` cheapest simple paths from one node to another, cheapest
    /// first, where the edge at slot `i` weighs `weights[i]`. Where a cycle on the way makes
    /// walks cheaper, every simple path is tried.
    pub fn shortest_path_top_k<C: Cost>(
        &mut self,
        weights: &Vec<C>,
        src: NodeId,
        dst: NodeId,
        k: usize,
    ) -> (r: Vec<WeightedPath<C>>)
        requires
            old(self).wf(),
            old(self).compressible(),
            weights@.len() == edge_list(old(self)@).len(),
        ensures
            old(self).refreshed(*final(self)),
            ({
                let ids = node_list(old(self)@);
                let s = dense_of(ids, src);
                let t = dense_of(ids, dst);
                if k == 0 {
                    r@.len() == 0
                } else if src == dst {
                    r@.len() == 1 && r@[0].nodes@ == seq![src] && r@[0].total_weight == C::zero()
                } else if !ids.contains(src) || !ids.contains(dst) {
                    r@.len() == 0
                } else {
                    exists|list: Seq<Found<C>>| #[trigger]
                        top_paths(final(self).snapshot, weights@, s, t, k as nat, list) && shown(
                            ids,
                            list,
                            r@,
                        )
                }
            }),
    {
        self.ensure_snapshot_fresh();
        shortest_path_top_k(&self.snapshot, weights, src, dst, k)
    }

    /// The edges of the spanning forest of least, or greatest, weight, where
    /// the edge at slot `k` weighs `weights[k]`.
    pub fn spanning_forest<C: Cost>(&mut self, weights: &Vec<C>, maximum: bool) -> (out: Vec<
        EdgeId,
    >)
        requires
            old(self).wf(),
            old(self).compressible(),
            weights@.len() == edge_list(old(self)@).len(),
        ensures
            old(self).refreshed(*final(self)),
            exists|order: Seq<usize>| #[trigger]
                forest_of(final(self).snapshot, weights@, maximum, order, out@),
    {
        self.ensure_snapshot_fresh();
        spanning_forest(&self.snapshot, weights, maximum)
    }

    /// The largest flow from one node to another, where the edge at slot `k`
    /// carries at most `caps[k]`.
    pub fn maximum_flow(&mut self, caps: &Vec<u64>, source: NodeId, sink: NodeId) -> (value: u128)
        requires
            old(self).wf(),
            old(self).compressible(),
            caps@.len() == edge_list(old(self)@).len(),
        ensures
            old(self).refreshed(*final(self)),
            if source == sink || !node_list(old(self)@).contains(source) || !node_list(
                old(self)@,
            ).contains(sink) {
                value == 0
            } else {
                most_carried(
                    final(self).snapshot,
                    caps@,
                    node_list(old(self)@).index_of(source),
                    node_list(old(self)@).index_of(sink),
                    value as int,
                )
            },
    {
        self.ensure_snapshot_fresh();
        maximum_flow(&self.snapshot, caps, source, sink)
    }

    /// The weakly connected component of each node, named by the smallest node in it.
    pub fn connected_components(&mut self) -> (found: HashMap<NodeId, u64>)
        requires
            old(self).wf(),
            old(self).compressible(),
        ensures
            old(self).refreshed(*final(self)),
            forall|id: NodeId| #[trigger]
                found@.dom().contains(id) <==> node_list(old(self)@).contains(id),
            forall|v: int|
                0 <= v < node_list(old(self)@).len() ==> names_component(
                    final(self).snapshot,
                    v,
                    found@[#[trigger] node_list(old(self)@)[v]],
                ),
    {
        let ghost c = self@;
        self.ensure_snapshot_fresh();
        let roots: Vec<usize> = component_roots(&self.snapshot);
        let mut names: Vec<u64> = Vec::new();
        let mut v: usize = 0;
        while v < roots.len()
            invariant
                self.wf(),
                !self.stale(),
                c == self@,
                roots@.len() == self.snapshot.n(),
                forall|u: int|
                    0 <= u < roots@.len() ==> smallest_connected(
                        self.snapshot,
                        u,
                        (#[trigger] roots@[u]) as int,
                    ),
                v <= roots@.len(),
                names@.len() == v,
                forall|u: int|
                    0 <= u < v ==> #[trigger] names@[u] == node_list(c)[roots@[u] as int],
            decreases roots@.len() - v,
        {
            assert(smallest_connected(self.snapshot, v as int, roots@[v as int] as int));
            names.push(self.snapshot.dense_to_id[roots[v]]);
            v = v + 1;
        }
        let found: HashMap<NodeId, u64> = by_node(&self.snapshot.dense_to_id, &names);
        proof {
            assert forall|v: int| 0 <= v < node_list(c).len() implies names_component(
                self.snapshot,
                v,
                found@[#[trigger] node_list(c)[v]],
            ) by {
                assert(smallest_connected(self.snapshot, v, roots@[v] as int));
                assert(names@[v] == node_list(c)[roots@[v] as int]);
            }
        }
        found
    }

    /// The edges at these sources, per source in the order of the list, and within one
    /// source in ascending order of the edges. A type that is not there has none. A few
    /// sources are read from the records where the snapshot is behind.
    pub fn expand_bulk(
        &mut self,
        src_nodes: &[NodeId],
        rel_type: Option<&str>,
        is_incoming: bool,
    ) -> (out: Vec<Triple>)
        requires
            old(self).wf(),
            old(self).compressible(),
        ensures
            old(self).refreshed(*final(self)) || *final(self) == *old(self),
            old(self).stale() && src_nodes@.len() <= 64 ==> *final(self) == *old(self),
            out@ == (match type_wanted(old(self)@, rel_type) {
                None => Seq::empty(),
                Some(want) => expansion(
                    node_list(old(self)@),
                    edge_list(old(self)@),
                    src_nodes@,
                    want,
                    is_incoming,
                ),
            }),
    {
        let want: Option<TypeId> = match rel_type {
            None => None,
            Some(name) => match self.store.types.scopes.number(name) {
                Some(t) => Some(t),
                None => {
                    return Vec::new();
                },
            },
        };
        if self.prefers_point_expansion(src_nodes.len()) {
            return self.expand_records(src_nodes, want, is_incoming);
        }
        self.ensure_snapshot_fresh();
        expand_rows(&self.snapshot, src_nodes, want, is_incoming)
    }

    /// The neighbor entries of a node, in ascending order of the edges.
    fn neighbors_by_edge(&self, node: NodeId, outgoing: bool) -> (sorted: Vec<NeighborEntry>)
        requires
            self.wf(),
        ensures
            entries_by_edge(self@, node, outgoing, sorted@),
    {
        let ghost c = self@;
        let list: Vec<NeighborEntry> = self.store.adj_entries_impl(node, outgoing);
        let mut table: Table<NeighborEntry> = Table::new();
        let mut i: usize = 0;
        while i < list.len()
            invariant
                c.lists_neighbors(node, outgoing, list@),
                i <= list@.len(),
                table.wf(),
                forall|e: EdgeId| #[trigger]
                    table@.dom().contains(e) ==> table@[e].edge == e && c.neighbors(
                        table@[e],
                        node,
                        outgoing,
                    ),
                forall|k: int| 0 <= k < i ==> table@.dom().contains((#[trigger] list@[k]).edge),
            decreases list@.len() - i,
        {
            let n: NeighborEntry = list[i];
            assert(c.neighbors(list@[i as int], node, outgoing));
            table.put(n.edge, n);
            i = i + 1;
        }
        let sorted: Vec<NeighborEntry> = table.vals;
        proof {
            assert forall|k: int| 0 <= k < sorted@.len() implies (#[trigger] sorted@[k]).edge
                == table.keys@[k] && c.neighbors(sorted@[k], node, outgoing) by {
                table.lemma_at(k);
            }
            assert forall|k: int, l: int| 0 <= k < l < sorted@.len() implies (
            #[trigger] sorted@[k]).edge < (#[trigger] sorted@[l]).edge by {
                assert(table.keys@[k] < table.keys@[l]);
            }
            assert forall|e: EdgeId| #[trigger]
                c.edges.dom().contains(e) && end_of(c.edges[e], outgoing) == node implies exists|
                k: int,
            |
                0 <= k < sorted@.len() && (#[trigger] sorted@[k]).edge == e by {
                let j = choose|j: int| 0 <= j < list@.len() && (#[trigger] list@[j]).edge == e;
                assert(table@.dom().contains(list@[j].edge));
                let k = table.keys@.index_of(e);
                assert(table.keys@[k] == e);
                assert(sorted@[k].edge == e);
            }
        }
        sorted
    }

    /// The edges at these sources, from the records.
    fn expand_records(&self, sources: &[NodeId], want: Option<TypeId>, incoming: bool) -> (out: Vec<
        Triple,
    >)
        requires
            self.wf(),
        ensures
            out@ == expansion(node_list(self@), edge_list(self@), sources@, want, incoming),
    {
        let ghost c = self@;
        let ghost ids = node_list(c);
        let ghost edges = edge_list(c);
        let mut out: Vec<Triple> = Vec::new();
        let mut i: usize = 0;
        proof {
            lemma_store_lists(self.store);
            assert(sources@.take(0) =~= Seq::<NodeId>::empty());
        }
        while i < sources.len()
            invariant
                self.wf(),
                c == self@,
                ids == node_list(c),
                edges == edge_list(c),
                i <= sources@.len(),
                out@ == expansion(ids, edges, sources@.take(i as int), want, incoming),
            decreases sources@.len() - i,
        {
            let src: NodeId = sources[i];
            let list: Vec<NeighborEntry> = self.neighbors_by_edge(src, !incoming);
            let ghost before = out@;
            let ghost row = row_of(c, src, incoming);
            proof {
                lemma_neighbor_row(self.store, src, incoming, list@);
                assert(row.take(0) =~= Seq::<Edge>::empty());
            }
            let mut k: usize = 0;
            while k < list.len()
                invariant
                    k <= list@.len(),
                    row.len() == list@.len(),
                    ids == node_list(c),
                    forall|j: int|
                        0 <= j < row.len() ==> is_entry(ids, #[trigger] row[j], list@[j], src, incoming),
                    out@ == before + row_triples(ids, row.take(k as int), want, incoming),
                decreases list@.len() - k,
            {
                let n: NeighborEntry = list[k];
                proof {
                    assert(is_entry(ids, row[k as int], list@[k as int], src, incoming));
                    assert(row.take(k + 1).drop_last() =~= row.take(k as int));
                    assert(row.take(k + 1).last() == row[k as int]);
                }
                let keep: bool = match want {
                    None => true,
                    Some(t) => n.edge_type == t,
                };
                if keep {
                    out.push((src, n.edge, n.node));
                }
                assert(out@ =~= before + row_triples(ids, row.take(k + 1), want, incoming));
                k = k + 1;
            }
            proof {
                assert(row.take(k as int) =~= row);
                assert(sources@.take(i + 1).drop_last() =~= sources@.take(i as int));
                assert(sources@.take(i + 1).last() == src);
                if !ids.contains(src) {
                    assert(row.len() == 0);
                    assert(out@ =~= before);
                }
            }
            i = i + 1;
        }
        assert(sources@.take(i as int) =~= sources@);
        out
    }
}

/// The entries for all edges at a node on one side, in ascending order of the edges.
spec fn entries_by_edge(
    c: Content,
    node: NodeId,
    outgoing: bool,
    list: Seq<NeighborEntry>,
) -> bool {
    &&& forall|i: int, j: int|
        0 <= i < j < list.len() ==> (#[trigger] list[i]).edge < (#[trigger] list[j]).edge
    &&& forall|i: int| 0 <= i < list.len() ==> c.neighbors(#[trigger] list[i], node, outgoing)
    &&& forall|e: EdgeId| #[trigger]
        c.edges.dom().contains(e) && end_of(c.edges[e], outgoing) == node ==> exists|i: int|
            0 <= i < list.len() && (#[trigger] list[i]).edge == e
}

/// The row of a node; empty where there is no such node.
spec fn row_of(c: Content, id: NodeId, incoming: bool) -> Seq<Edge> {
    if node_list(c).contains(id) {
        edge_list(c).filter(
            if incoming {
                entering(dense_of(node_list(c), id))
            } else {
                leaving(dense_of(node_list(c), id))
            },
        )
    } else {
        Seq::empty()
    }
}

/// Whether a neighbor entry is that of an edge of a row.
spec fn is_entry(
    ids: Seq<NodeId>,
    e: Edge,
    n: NeighborEntry,
    src: NodeId,
    incoming: bool,
) -> bool {
    &&& e.id == n.edge
    &&& e.ty == n.edge_type
    &&& if incoming {
        ids[e.dst] == src && ids[e.src] == n.node
    } else {
        ids[e.src] == src && ids[e.dst] == n.node
    }
}

/// The neighbor entries of a node are those of its row.
proof fn lemma_neighbor_row(s: Store, src: NodeId, incoming: bool, list: Seq<NeighborEntry>)
    requires
        s.wf(),
        entries_by_edge(s@, src, !incoming, list),
    ensures
        row_of(s@, src, incoming).len() == list.len(),
        forall|j: int|
            0 <= j < list.len() ==> is_entry(
                node_list(s@),
                #[trigger] row_of(s@, src, incoming)[j],
                list[j],
                src,
                incoming,
            ),
{
    let c = s@;
    let ids = node_list(c);
    let edges = edge_list(c);
    let row = row_of(c, src, incoming);
    lemma_store_lists(s);
    if !ids.contains(src) {
        if list.len() > 0 {
            assert(c.neighbors(list[0], src, !incoming));
            assert(s.edges@.dom().contains(list[0].edge));
            assert(s.nodes@.dom().contains(src));
            assert(c.nodes.dom().contains(src));
        }
    } else {
        let d = dense_of(ids, src);
        let p = if incoming {
            entering(d)
        } else {
            leaving(d)
        };
        assert(0 <= d < ids.len() && ids[d] == src);
        assert(row == edges.filter(p));
        let x = row.map_values(|e: Edge| e.id);
        let y = list.map_values(|n: NeighborEntry| n.edge);
        crate::dijkstra::lemma_filter_ascending(edges, p);
        assert(ascending(x)) by {
            assert forall|i: int, j: int| 0 <= i < j < x.len() implies x[i] < x[j] by {
                assert(row[i].id < row[j].id);
            }
        }
        assert(ascending(y)) by {
            assert forall|i: int, j: int| 0 <= i < j < y.len() implies y[i] < y[j] by {
                assert(list[i].edge < list[j].edge);
            }
        }
        assert forall|v: u64| #[trigger] x.contains(v) <==> y.contains(v) by {
            if x.contains(v) {
                let i = x.index_of(v);
                let e = row[i];
                edges.lemma_filter_pred(p, i);
                edges.lemma_filter_contains_rev(p, e);
                assert(row.contains(e));
                let k = edges.index_of(e);
                assert(edges[k] == e);
                assert(is_edge(c.edges, ids, edges[k]));
                assert(c.edges.dom().contains(v));
                let j = choose|j: int| 0 <= j < list.len() && (#[trigger] list[j]).edge == v;
                assert(y[j] == v);
            }
            if y.contains(v) {
                let j = y.index_of(v);
                assert(c.neighbors(list[j], src, !incoming));
                let k = choose|k: int| 0 <= k < edges.len() && (#[trigger] edges[k]).id == v;
                let e = edges[k];
                assert(is_edge(c.edges, ids, e));
                let end = if incoming {
                    e.dst
                } else {
                    e.src
                };
                assert(ids[end] == src);
                if end < d {
                    assert(ids[end] < ids[d]);
                } else if d < end {
                    assert(ids[d] < ids[end]);
                }
                assert(edges.contains(e));
                edges.lemma_filter_contains(p, k);
                assert(row.contains(e));
                let i = row.index_of(e);
                assert(x[i] == v);
            }
        }
        lemma_ascending_unique(x, y);
        assert(row.len() == x.len() && list.len() == y.len());
        assert forall|j: int| 0 <= j < list.len() implies is_entry(
            ids,
            #[trigger] row[j],
            list[j],
            src,
            incoming,
        ) by {
            assert(x[j] == row[j].id && y[j] == list[j].edge);
            let e = row[j];
            edges.lemma_filter_pred(p, j);
            edges.lemma_filter_contains_rev(p, e);
            assert(row.contains(e));
            let k = edges.index_of(e);
            assert(edges[k] == e);
            assert(is_edge(c.edges, ids, edges[k]));
            assert(c.neighbors(list[j], src, !incoming));
        }
    }
}

/// Whether `name` is the smallest node in the component of `v`.
pub open spec fn names_component(snap: CsrSnapshot, v: int, name: NodeId) -> bool {
    exists|root: int| #[trigger]
        smallest_connected(snap, v, root) && snap.dense_to_id@[root] == name
}

/// The number of the type that is asked for, where there is one: `None` where
/// no type has the name.
pub open spec fn type_wanted(c: Content, rel: Option<&str>) -> Option<Option<TypeId>> {
    match rel {
        None => Some(None),
        Some(name) => match number_of_name(c.types, name@) {
            Some(t) => Some(Some(t)),
            None => None,
        },
    }
}

/// The bit pattern of the float that a number is, or is nearest to.
pub open spec fn as_float(v: Val) -> Option<u64> {
    match v {
        Val::Int(i) => Some(float_of(i as int) as u64),
        Val::UInt(u) => Some(float_of(u as int) as u64),
        Val::Float(bits) => Some(bits),
        _ => None,
    }
}

/// The number in the first of the properties from position `i` on that is there.
pub open spec fn number_in(props: Map<Seq<char>, Val>, names: Seq<&str>, i: int) -> Option<u64>
    decreases names.len() - i,
{
    if i >= names.len() {
        None
    } else if props.dom().contains(names[i]@) {
        as_float(props[names[i]@])
    } else {
        number_in(props, names, i + 1)
    }
}

fn first_number(props: &Props, names: &[&str]) -> (r: Option<u64>)
    requires
        props.wf(),
    ensures
        r == number_in(props@, names@, 0),
{
    let mut i: usize = 0;
    while i < names.len()
        invariant
            props.wf(),
            i <= names@.len(),
            number_in(props@, names@, 0) == number_in(props@, names@, i as int),
        decreases names@.len() - i,
    {
        if let Some(v) = props.get(names[i]) {
            return match v {
                PropValue::Int(n) => Some(float_bits(*n)),
                PropValue::UInt(u) => Some(crate::value::magnitude_float(*u)),
                PropValue::Float(bits) => Some(*bits),
                _ => None,
            };
        }
        i = i + 1;
    }
    None
}

/// A map from each node to its value.
pub(crate) fn by_node(ids: &Vec<NodeId>, values: &Vec<u64>) -> (found: HashMap<NodeId, u64>)
    requires
        ascending(ids@),
        values@.len() == ids@.len(),
    ensures
        forall|id: NodeId| #[trigger] found@.dom().contains(id) <==> ids@.contains(id),
        forall|d: int| 0 <= d < ids@.len() ==> found@[#[trigger] ids@[d]] == values@[d],
{
    broadcast use vstd::std_specs::hash::group_hash_axioms;

    let mut found: HashMap<NodeId, u64> = HashMap::new();
    let mut d: usize = 0;
    assert(ids@.take(0) =~= Seq::<NodeId>::empty());
    while d < ids.len()
        invariant
            ascending(ids@),
            values@.len() == ids@.len(),
            d <= ids@.len(),
            forall|id: NodeId| #[trigger]
                found@.dom().contains(id) <==> ids@.take(d as int).contains(id),
            forall|e: int| 0 <= e < d ==> found@[#[trigger] ids@[e]] == values@[e],
        decreases ids@.len() - d,
    {
        let ghost before = found@;
        found.insert(ids[d], values[d]);
        proof {
            let (a, b) = (ids@.take(d as int), ids@.take(d + 1));
            assert forall|id: NodeId| #[trigger] found@.dom().contains(id) <==> b.contains(
                id,
            ) by {
                if a.contains(id) {
                    let j = a.index_of(id);
                    assert(b[j] == id);
                }
                assert(b[d as int] == ids@[d as int]);
                if b.contains(id) {
                    let j = b.index_of(id);
                    if j < d {
                        assert(a[j] == id);
                    }
                }
                assert(before.dom().contains(id) <==> a.contains(id));
            }
            assert forall|e: int| 0 <= e < d + 1 implies found@[#[trigger] ids@[e]]
                == values@[e] by {
                if e < d {
                    assert(ids@[e] < ids@[d as int]);
                }
            }
        }
        d = d + 1;
    }
    assert(ids@.take(d as int) =~= ids@);
    found
}

} // verus!
