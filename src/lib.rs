//! A quadtree: a spatial index that partitions a rectangular zone into four
//! quadrants when a node overflows, keeping each element in the smallest
//! node whose quadrant holds it.
pub mod geometry;
pub mod traits;
pub mod tree;
pub mod vals;
