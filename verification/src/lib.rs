//! A partial-order alignment (POA) graph library.
//!
//! The graph absorbs biological sequences one at a time: the first sequence
//! seeds a linear chain, every later one is aligned against the current graph
//! with an affine-gap dynamic program and then folded back into it, reusing
//! matched nodes, branching at substitutions and inserting new chains where
//! the query has no counterpart. Two read-only extractions are offered: a
//! column-aligned multiple-sequence alignment and a segment/link/path
//! serialization of the graph.

pub mod align;
pub mod gfa;
pub mod graph;
pub mod msa;
pub mod update;
