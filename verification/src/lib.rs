//! Randomized fixed-parameter-tractable graph algorithms: color coding for
//! simple paths of a given length, iterative kernelization with randomized
//! branching for small feedback vertex sets, and random separation for
//! subgraph isomorphism against a pattern with few connected pieces. All
//! three are Monte-Carlo deciders amplified by independent repeated trials.

pub mod color_coding;
pub mod digraph;
pub mod feedback_vertex_set;
pub mod graph;
pub mod random_separation;
pub(crate) mod rng;
pub mod ungraph;
