//! Agglomerative hierarchical clustering over a dense distance matrix.
//!
//! Distances are non-negative fixed-point integers (`u32`); linkage distances
//! are exact rationals, so nearest-pair search and tie-breaking are exact.
//! The merge engine, the tree built from its merge sequence, and the leaf
//! ordering are verified against the specifications in each module.

pub mod agglomerative;
pub mod cluster_map;
pub mod dendrogram;
pub mod linkage;
pub mod matrix;
pub mod merges;

pub use agglomerative::{hierarchical_clustering, ClusterError};
pub use cluster_map::{ClusterMap, Distances};
pub use dendrogram::{ClusterHierarchy, DendrogramNode};
pub use linkage::{LinkageDistance, LinkageMethod, MAX_ITEMS};
pub use matrix::{Metric, MatrixError};
pub use merges::Merge;
