//! Streaming level-of-detail terrain: a quadtree over integer world regions
//! that refines around an observer, and the bookkeeping of the chunks that
//! it spawns and retires.
pub mod region;
pub mod policy;
pub mod lod_tree;
pub mod refine;
pub mod terrain;
pub mod mesh;
pub mod grid;
