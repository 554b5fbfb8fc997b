//! The simulation's data structures: integer-grid quadtree and octree, and the body list.
pub mod octree;
pub mod quadtree;
pub mod seq_facts;
pub mod span;
pub mod simulate;
