//! A small particle-simulation library: point particles move under gravity,
//! short-range pairwise forces and boundary reflection, accelerated by one of
//! three interchangeable spatial indices (a quadtree, a Morton-ordered array,
//! and a bounding-rectangle tree).

pub mod particle;
pub mod quad_tree;
pub mod rstar_tree;
pub mod v2;
pub mod zorder_tree;
