//! A static kd-tree acceleration structure for ray casting.
//!
//! The tree is built once, from a fixed collection of axis-aligned bounding
//! boxes, by recursive binary space partitioning driven by the Surface Area
//! Heuristic.  Queries hand a ray through the flat node arena and return the
//! indices of every item whose box the ray could possibly hit, sorted and
//! deduplicated.
//!
//! All coordinates are integers bounded by [`aabb::COORD_LIMIT`], so every
//! geometric test (the slab test, the cost sweep) is exact: the slab test
//! decides whether some rational parameter `t > 0` places the ray inside the
//! box, with no rounding.

use vstd::prelude::*;

pub mod aabb;
pub mod candidate;
pub mod config;
pub mod kdnode;
pub mod kdtree;

pub mod plane;
pub mod ray;

pub use aabb::{Bounded, Vector3, AABB};
pub use config::BuilderConfig;
pub use kdtree::KDTree;

verus! {

} // verus!
