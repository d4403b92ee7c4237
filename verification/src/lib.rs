//! Query solving for GraphQL federation, verified: building the Steiner graph from the solution
//! space (the climb from each terminal, the requirements collected on the way and their
//! grouping), the GreedyFLAC Steiner tree construction
//! (every decision of its flow simulation, and why the tree it grows stays a tree reaching every
//! connected terminal), the fixed point that keeps requirement weights in
//! line with the tree, the post-processing of the solved query graph (mutation order, splitting
//! self-dependent query partitions), and the small helpers around the query graphs.

pub mod bitset;
pub mod dedup;
pub mod dot_graph;
pub mod error;
pub mod flac;
pub mod flac_run;
pub mod graph;
pub mod mutation_order;
pub mod partition_cycles;
pub mod query;
pub mod query_graph;
pub mod requirements;
pub mod requirements_input;
pub mod solution;
pub mod space_graph;
pub mod steiner_build;
pub mod steiner_input;
pub mod steiner_tree;
