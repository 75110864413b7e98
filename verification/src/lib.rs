//! Building and searching a vector index in clusters.

pub mod accuracy;
pub mod assignments;
pub mod binary64;
pub mod centroids;
pub mod collector;
pub mod consumer;
pub mod distribution;
pub mod double_order;
pub mod item_pointer;
pub mod k_means;
pub mod kmeans1d;
pub mod leader;
pub mod lloyd;
pub mod producer;
pub mod queue;
pub mod refill;
pub mod result_heap;
pub mod scan;
pub mod settings;
pub mod shared;
pub mod single;
pub mod start_nodes;
pub mod sums;
