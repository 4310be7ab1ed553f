//! A property graph and its query kernels.

pub mod analytics;
pub mod catalog;
pub mod community_laws;
pub mod components;
pub mod cost;
pub mod count_laws;
pub mod counting;
pub mod csr;
pub mod depth_first;
pub mod dijkstra;
pub mod entries;
pub mod error;
pub mod finish;
pub mod flow;
pub mod forest;
pub mod graph;
pub mod graph_analytics;
pub mod graph_counts;
pub mod graph_kernels;
pub mod graph_queries;
pub mod graph_text;
pub mod grouping;
pub mod heap;
pub mod image;
pub mod keys;
pub mod laws;
pub mod loopless;
pub mod louvain;
pub mod modularity;
pub mod neighborhoods;
pub mod path_laws;
pub mod paths;
pub mod reach_laws;
pub mod record_laws;
pub mod route_laws;
pub mod scc;
pub mod range_laws;
pub mod rounds;
pub mod schema;
pub mod score_laws;
pub mod sets;
pub mod simple_paths;
pub mod spanning;
pub mod store;
pub mod store_copy;
pub mod store_edges;
pub mod store_nodes;
pub mod store_queries;
pub mod sums;
pub mod tables;
pub mod text;
pub mod text_laws;
pub mod text_sync;
pub mod top_k;
pub mod traversal;
pub mod triangles;
pub mod typed_adj;
pub mod value;
pub mod value_laws;
pub mod weight_laws;
pub mod weighted;
