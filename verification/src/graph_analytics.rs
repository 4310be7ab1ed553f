//! Components, degrees, communities and distances of a graph's nodes.

use std::collections::HashMap;

use vstd::prelude::*;

use crate::analytics::{
    degree, degree_centrality, distances_counted, hop_histogram, label_propagation, rounds,
};
use crate::csr::lemma_index_unique;
use crate::graph::Graph;
use crate::graph_kernels::by_node;
use crate::image::{edge_list, node_list};
use crate::louvain::{alone, level_of, louvain, named_first, settles_as, LouvainLevel};
use crate::neighborhoods::{
    around, around_count, clustering_counts, linked_pairs, link_counts, paths_fit, shortest_dag,
    shortest_steps, LinkCounts, ShortestDag, ShortestSteps,
};
use crate::scc::{components_of, strongly_connected_components};
use crate::schema::{DegreeDirection, NodeId};
use crate::traversal::dense_of;
use crate::typed_adj::nodes_ascending;

verus! {

/// A map gives each node of the graph its value.
pub open spec fn maps_nodes(ids: Seq<NodeId>, found: Map<NodeId, u64>, values: Seq<u64>) -> bool {
    &&& values.len() == ids.len()
    &&& forall|id: NodeId| #[trigger] found.dom().contains(id) <==> ids.contains(id)
    &&& forall|d: int| 0 <= d < ids.len() ==> found[#[trigger] ids[d]] == values[d]
}

impl Graph {
    /// The strongly connected component of each node.
    pub fn strongly_connected_components(&mut self) -> (found: HashMap<NodeId, u64>)
        requires
            old(self).wf(),
            old(self).compressible(),
        ensures
            old(self).refreshed(*final(self)),
            exists|values: Seq<u64>| #[trigger]
                components_of(edge_list(old(self)@), node_list(old(self)@).len(), values)
                    && maps_nodes(node_list(old(self)@), found@, values),
    {
        self.ensure_snapshot_fresh();
        let values: Vec<u64> = strongly_connected_components(&self.snapshot);
        by_node(&self.snapshot.dense_to_id, &values)
    }

    /// The distinct neighbors of each node in a direction.
    pub fn degree_centrality(&mut self, direction: DegreeDirection) -> (found: HashMap<NodeId, u64>)
        requires
            old(self).wf(),
            old(self).compressible(),
        ensures
            old(self).refreshed(*final(self)),
            maps_nodes(
                node_list(old(self)@),
                found@,
                degrees_of(old(self)@, direction),
            ),
    {
        let ghost c = self@;
        self.ensure_snapshot_fresh();
        let values: Vec<u64> = degree_centrality(&self.snapshot, direction);
        proof {
            assert(values@ =~= degrees_of(c, direction)) by {
                assert forall|d: int| 0 <= d < values@.len() implies values@[d] == degrees_of(
                    c,
                    direction,
                )[d] by {
                    assert(values@[d] == degree(
                        edge_list(c),
                        node_list(c).len(),
                        direction,
                        d,
                    ));
                }
            }
        }
        by_node(&self.snapshot.dense_to_id, &values)
    }

    /// The community of each node by label propagation.
    pub fn label_propagation(&mut self, max_iterations: usize) -> (found: HashMap<NodeId, u64>)
        requires
            old(self).wf(),
            old(self).compressible(),
            2 * edge_list(old(self)@).len() < u64::MAX,
        ensures
            old(self).refreshed(*final(self)),
            maps_nodes(
                node_list(old(self)@),
                found@,
                rounds(
                    edge_list(old(self)@),
                    node_list(old(self)@),
                    max_iterations as nat,
                ),
            ),
    {
        self.ensure_snapshot_fresh();
        let values: Vec<u64> = label_propagation(&self.snapshot, max_iterations);
        proof {
            lemma_rounds_len(
                self.snapshot.edges@,
                self.snapshot.dense_to_id@,
                max_iterations as nat,
            );
        }
        by_node(&self.snapshot.dense_to_id, &values)
    }

    /// The community of each node by the Louvain method, named by the smallest
    /// node in it.
    pub fn louvain(&mut self) -> (found: HashMap<NodeId, u64>)
        requires
            old(self).wf(),
            old(self).compressible(),
            edge_list(old(self)@).len() < 0x0800_0000_0000_0000,
        ensures
            old(self).refreshed(*final(self)),
            exists|level: LouvainLevel, member: Seq<u32>, values: Seq<u64>|
                {
                    &&& #[trigger] level_of(
                        edge_list(old(self)@),
                        node_list(old(self)@).len(),
                        level,
                    )
                    &&& #[trigger] settles_as(
                        level,
                        alone(node_list(old(self)@).len()),
                        32,
                        member,
                    )
                    &&& #[trigger] maps_nodes(node_list(old(self)@), found@, values)
                    &&& forall|u: int|
                        0 <= u < values.len() ==> named_first(
                            node_list(old(self)@),
                            member,
                            u,
                            #[trigger] values[u],
                        )
                },
    {
        self.ensure_snapshot_fresh();
        let values: Vec<u64> = louvain(&self.snapshot);
        let found: HashMap<NodeId, u64> = by_node(&self.snapshot.dense_to_id, &values);
        proof {
            assert(maps_nodes(self.snapshot.dense_to_id@, found@, values@));
        }
        found
    }

    /// How many nodes are at each distance from each node, in the order of the nodes.
    pub fn distance_counts(&mut self) -> (out: Vec<Vec<u64>>)
        requires
            old(self).wf(),
            old(self).compressible(),
        ensures
            old(self).refreshed(*final(self)),
            out@.len() == node_list(old(self)@).len(),
            forall|d: int|
                0 <= d < out@.len() ==> distances_counted(
                    edge_list(old(self)@),
                    node_list(old(self)@).len(),
                    d,
                    (#[trigger] out@[d])@,
                ),
    {
        self.ensure_snapshot_fresh();
        let n: usize = self.snapshot.dense_to_id.len();
        let mut out: Vec<Vec<u64>> = Vec::new();
        let mut d: usize = 0;
        while d < n
            invariant
                self.snapshot.wf(),
                n == self.snapshot.n(),
                d <= n,
                out@.len() == d,
                forall|e: int|
                    0 <= e < d ==> distances_counted(
                        self.snapshot.edges@,
                        n as nat,
                        e,
                        (#[trigger] out@[e])@,
                    ),
            decreases n - d,
        {
            let hist: Vec<u64> = hop_histogram(&self.snapshot, d as u32);
            out.push(hist);
            d = d + 1;
        }
        out
    }

    /// How many ordered pairs of each node's neighbors are linked, and how many
    /// neighbors it has, in the order of the nodes.
    pub fn clustering_counts(&mut self) -> (out: Vec<(u64, usize)>)
        requires
            old(self).wf(),
            old(self).compressible(),
        ensures
            old(self).refreshed(*final(self)),
            out@.len() == node_list(old(self)@).len(),
            forall|d: int|
                0 <= d < out@.len() ==> (#[trigger] out@[d]).0 == linked_pairs(
                    edge_list(old(self)@),
                    out@.len(),
                    d,
                    out@.len() as int,
                ) && out@[d].1 == around_count(edge_list(old(self)@), out@.len(), d),
    {
        self.ensure_snapshot_fresh();
        let n: usize = self.snapshot.dense_to_id.len();
        let mut out: Vec<(u64, usize)> = Vec::new();
        let mut d: usize = 0;
        while d < n
            invariant
                self.snapshot.wf(),
                n == self.snapshot.n(),
                d <= n,
                out@.len() == d,
                forall|e: int|
                    0 <= e < d ==> (#[trigger] out@[e]).0 == linked_pairs(
                        self.snapshot.edges@,
                        n as nat,
                        e,
                        n as int,
                    ) && out@[e].1 == around_count(self.snapshot.edges@, n as nat, e),
            decreases n - d,
        {
            out.push(clustering_counts(&self.snapshot, d));
            d = d + 1;
        }
        out
    }

    /// The neighborhoods of two nodes, and what they share.
    pub fn link_counts(&mut self, a: NodeId, b: NodeId) -> (r: Option<LinkCounts>)
        requires
            old(self).wf(),
            old(self).compressible(),
        ensures
            old(self).refreshed(*final(self)),
            r is Some <==> node_list(old(self)@).contains(a) && node_list(old(self)@).contains(b),
            r matches Some(c) ==> ({
                let edges = edge_list(old(self)@);
                let ids = node_list(old(self)@);
                let x = dense_of(ids, a);
                let y = dense_of(ids, b);
                &&& c.left == around_count(edges, ids.len(), x)
                &&& c.right == around_count(edges, ids.len(), y)
                &&& nodes_ascending(c.shared@)
                &&& forall|v: u32| #[trigger]
                    c.shared@.contains(v) <==> v < ids.len() && around(edges, x)(v as int)
                        && around(edges, y)(v as int)
                &&& c.degrees@.len() == c.shared@.len()
                &&& forall|i: int|
                    0 <= i < c.shared@.len() ==> (#[trigger] c.degrees@[i]) == around_count(
                        edges,
                        ids.len(),
                        c.shared@[i] as int,
                    )
            }),
    {
        self.ensure_snapshot_fresh();
        link_counts(&self.snapshot, a, b)
    }

    /// The steps of the shortest paths from a node; nothing where there is no such node.
    pub fn shortest_steps_from(&mut self, source: NodeId) -> (r: Option<ShortestSteps>)
        requires
            old(self).wf(),
            old(self).compressible(),
        ensures
            old(self).refreshed(*final(self)),
            r is Some <==> node_list(old(self)@).contains(source),
            r matches Some(steps) ==> steps.of(
                edge_list(old(self)@),
                node_list(old(self)@).len(),
                dense_of(node_list(old(self)@), source),
            ),
    {
        self.ensure_snapshot_fresh();
        match self.snapshot.dense(source) {
            Some(d) => {
                proof {
                    lemma_index_unique(self.snapshot.dense_to_id@, d as int);
                    assert(self.snapshot.dense_to_id@.contains(source));
                }
                Some(shortest_steps(&self.snapshot, d as u32))
            },
            None => None,
        }
    }

    /// The shortest paths from a node, with their counts; nothing where there
    /// is no such node, or where some count does not fit.
    pub fn shortest_paths_from(&mut self, source: NodeId) -> (r: Option<ShortestDag>)
        requires
            old(self).wf(),
            old(self).compressible(),
        ensures
            old(self).refreshed(*final(self)),
            r is Some <==> node_list(old(self)@).contains(source) && paths_fit(
                edge_list(old(self)@),
                node_list(old(self)@).len(),
                dense_of(node_list(old(self)@), source),
            ),
            r matches Some(dag) ==> dag.of(
                edge_list(old(self)@),
                node_list(old(self)@).len(),
                dense_of(node_list(old(self)@), source),
            ),
    {
        self.ensure_snapshot_fresh();
        match self.snapshot.dense(source) {
            Some(d) => {
                proof {
                    lemma_index_unique(self.snapshot.dense_to_id@, d as int);
                    assert(self.snapshot.dense_to_id@.contains(source));
                }
                shortest_dag(&self.snapshot, d as u32)
            },
            None => None,
        }
    }
}

/// The degrees of all nodes.
pub open spec fn degrees_of(c: crate::store::Content, direction: DegreeDirection) -> Seq<u64> {
    Seq::new(
        node_list(c).len(),
        |d: int| degree(edge_list(c), node_list(c).len(), direction, d) as u64,
    )
}

proof fn lemma_rounds_len(edges: Seq<crate::csr::Edge>, labels: Seq<u64>, k: nat)
    ensures
        rounds(edges, labels, k).len() == labels.len(),
    decreases k,
{
    if k > 0 {
        lemma_rounds_len(edges, labels, (k - 1) as nat);
    }
}

} // verus!
