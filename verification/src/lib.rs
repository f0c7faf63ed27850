//! Spatial-query and importance-sampling core for an offline renderer:
//! a bounding-volume hierarchy over axis-aligned boxes with batched ray
//! traversal, a 4-wide collapsed variant with precomputed traversal orders,
//! and weighted light selection with exact selection probabilities.
//!
//! Geometry is exact: coordinates are `i64` values in caller-chosen units,
//! and ray parameters are rational numbers, so every contract here is a
//! precise statement rather than an approximation.

pub mod math;
pub mod bvh_order;
pub mod algorithm;
pub mod bbox;
pub mod ray;
pub mod objects_split;
pub mod bvh;
pub mod accel;
pub mod light_array;
pub mod light_tree;
pub mod bvh4;
pub mod box_test;
pub mod world;
