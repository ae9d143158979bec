//! A graph data model in which edges are first-class elements: an edge has
//! its own identity and can itself be the source or target of another edge,
//! permitting arbitrarily deep or cyclic chains of edges referencing edges.
//!
//! The crate provides the element arena and adjacency index ([`graph`]),
//! the cascading-removal algorithm, the position overlay that keeps derived
//! midpoint coordinates consistent as the graph mutates ([`state`]), and the
//! binary snapshot codec ([`codec`]).
#![verifier::loop_isolation(false)]

mod pairs;
pub mod table;

pub mod graph;
pub mod state;
pub mod codec;
