//! The identifiers and pattern descriptions that the kernels share.

use vstd::prelude::*;

verus! {

/// Identifier of a node, unique over the life of a graph.
pub type NodeId = u64;

/// Identifier of an edge, unique over the life of a graph.
pub type EdgeId = u64;

/// Registry number of a node label.
pub type LabelId = u32;

/// Registry number of a relationship type.
pub type TypeId = u32;

/// Registry number of a property key.
pub type PropKeyId = u32;

/// The direction of edges to count for degree centrality.
#[derive(Debug, Clone, Copy, PartialEq, Eq, Hash, Structural)]
pub enum DegreeDirection {
    /// Count incoming edges only.
    In,
    /// Count outgoing edges only.
    Out,
    /// Count both incoming and outgoing edges.
    Both,
}

/// The directed cycle `(a)-[t1]->(b)-[t2]->(c)-[t3]->(a)` with an optional
/// relationship type per hop and an optional label per node variable. `None`
/// means unconstrained.
#[derive(Debug, Clone, Default)]
pub struct TriangleCountSpec<'a> {
    /// Relationship types for the hops `a -> b`, `b -> c`, and `c -> a`.
    pub rel_types: [Option<&'a str>; 3],
    /// Labels required on `a`, `b`, and `c`.
    pub labels: [Option<&'a str>; 3],
}

/// An open directed path of one or two hops, `(v0)-[t1]->(v1)` or
/// `(v0)-[t1]->(v1)-[t2]->(v2)`, with an optional relationship type per hop and
/// an optional label per node variable. `None` means unconstrained. The two
/// relationships of a two-hop path must be distinct.
#[derive(Debug, Clone, Default)]
pub struct PathCountSpec<'a> {
    /// Relationship type per hop, in path order. Length 1 or 2.
    pub rel_types: Vec<Option<&'a str>>,
    /// Label per node variable, in path order. Length is `rel_types.len() + 1`.
    pub labels: Vec<Option<&'a str>>,
    /// Optional allow-set of node ids per variable, in path order, intersected
    /// with the variable's label. An empty vector constrains no variable.
    pub vertex_allow: Vec<Option<Vec<NodeId>>>,
}

/// Typed edges grouped by one endpoint: by the destination with `group_is_dst`,
/// by the source otherwise. The other endpoint is the counted one.
#[derive(Debug, Clone, Default)]
pub struct GroupedDegreeSpec<'a> {
    /// Relationship type to count, or `None` for any type.
    pub rel_type: Option<&'a str>,
    /// Group by the edge destination when true; by the edge source when false.
    pub group_is_dst: bool,
    /// Label required on the group endpoint.
    pub group_label: Option<&'a str>,
    /// Label required on the counted endpoint.
    pub counted_label: Option<&'a str>,
    /// Allow-set the counted endpoint must belong to, intersected with
    /// `counted_label`. An empty slice counts zero.
    pub counted_allow: Option<&'a [NodeId]>,
    /// Property that must be non-null on the counted endpoint for an edge to
    /// count; `None` counts every qualifying edge.
    pub counted_nonnull_prop: Option<&'a str>,
}

/// Per-source counts of typed neighbors across one hop. A neighbor qualifies
/// when it carries every label and belongs to the allow-set, where there is
/// one; it adds to the counted total only when the named property is non-null
/// on it, where one is named.
#[derive(Debug, Clone, Default)]
pub struct NeighborCountSpec<'a> {
    /// Relationship type to follow, or `None` for any type.
    pub rel_type: Option<&'a str>,
    /// Follow incoming edges (neighbors are edge sources) instead of outgoing.
    pub incoming: bool,
    /// Labels a neighbor must all carry to qualify.
    pub neighbor_labels: &'a [&'a str],
    /// Allow-set a neighbor must belong to, intersected with the labels. An
    /// empty slice admits no neighbor.
    pub neighbor_allow: Option<&'a [NodeId]>,
    /// Property that must be non-null on a qualifying neighbor for it to add to
    /// the counted total; `None` counts every qualifying neighbor.
    pub neighbor_nonnull_prop: Option<&'a str>,
}

} // verus!
