//! Weighted undirected graphs with verified shortest paths, metric closure,
//! a greedy Steiner-tree heuristic, a bucket queue and a disjoint-set forest.

pub mod bucket_queue;
pub mod data;
pub mod graph;
pub mod walks;
pub mod shortest_path;
pub mod steiner;
pub mod union_find;

pub use bucket_queue::{Bag, BucketQueue, CustomBucketQueue};
pub use data::{City, Color, Cost, Edge, Position};
pub use graph::{NodeId, UnGraph};
pub use shortest_path::{dijkstra_usize, metric_closure_usize};
pub use steiner::{steiner_mst, steiner_mst_usize};
pub use union_find::{Entry, SimpleDisjointSet};
