//! The decision diagram with long arcs: its arena of nodes and edges, the
//! queries it answers, and the steps of its compilation.
//!
//! - [`arena`]: nodes, edges, the invariant of the diagram.
//! - [`queries`]: making and emptying a diagram, best value and paths.
//! - [`develop`]: the root, and the transitions out of a node.
//! - [`layer`]: splitting the layer under construction, settling.
//! - [`width`]: ordering and restricting a layer.
//! - [`relax`]: merging the tail of a layer.
//! - [`control`]: width control.
//! - [`branch`]: developing the nodes of a layer.
//! - [`step`]: one layer of the compilation.
//! - [`bounds`]: local bounds.
//! - [`cutset`]: the last exact layer and the cutset.
//! - [`finish`]: the end of a compilation.
//! - [`compile`]: the compilation.

pub mod arena;
pub mod bounds;
pub mod branch;
pub mod compile;
pub mod control;
pub mod cutset;
pub mod develop;
pub mod faithful;
pub mod finish;
pub mod layer;
pub mod queries;
pub mod relax;
pub mod step;
pub mod width;
