//! A dense N-dimensional grid of values over a fixed coordinate range, stored
//! as a tree in which every region whose cells all hold one value is a single
//! node.
//!
//! `SparseTree` is the container. `node` holds the tree that it is stored in,
//! `sector` the arithmetic that takes a coordinate tuple one level down, and
//! `laws` what is proved of every grid.

pub mod sector;
pub mod node;
pub mod tree;
pub mod laws;

pub use tree::SparseTree;
