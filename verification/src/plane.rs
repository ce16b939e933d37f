//! Axes, per-axis accumulators, and axis-aligned splitting planes.

use vstd::prelude::*;

use crate::aabb::{Vector3, AABB};

verus! {

/// One of the three orthogonal axes.
#[derive(Clone, Copy, Debug, PartialEq, Eq, Hash, Structural)]
pub enum Dimension {
    /// First axis.
    X,
    /// Second axis.
    Y,
    /// Third axis.
    Z,
}

/// The coordinate of a point on the given axis.
pub open spec fn spec_axis(v: Vector3, dim: Dimension) -> int {
    match dim {
        Dimension::X => v.x as int,
        Dimension::Y => v.y as int,
        Dimension::Z => v.z as int,
    }
}

/// A fixed accumulator with one slot per axis, indexed without hashing.
#[derive(Clone, Copy, Debug)]
pub struct DimensionMap<T> {
    /// Slot for the first axis.
    pub x: T,
    /// Slot for the second axis.
    pub y: T,
    /// Slot for the third axis.
    pub z: T,
}

impl<T: Copy> DimensionMap<T> {
    /// The value stored for an axis.
    pub open spec fn spec_get(self, dim: Dimension) -> T {
        match dim {
            Dimension::X => self.x,
            Dimension::Y => self.y,
            Dimension::Z => self.z,
        }
    }

    /// Read the slot of an axis.
    pub fn get(&self, dim: Dimension) -> (r: T)
        ensures
            r == self.spec_get(dim),
    {
        match dim {
            Dimension::X => self.x,
            Dimension::Y => self.y,
            Dimension::Z => self.z,
        }
    }

    /// Replace the slot of an axis.
    pub fn set(&mut self, dim: Dimension, value: T)
        ensures
            final(self).spec_get(dim) == value,
            forall|d: Dimension| d != dim ==> final(self).spec_get(d) == old(self).spec_get(d),
    {
        match dim {
            Dimension::X => self.x = value,
            Dimension::Y => self.y = value,
            Dimension::Z => self.z = value,
        }
    }
}

impl Dimension {
    /// Create an accumulator holding the same value for every axis.
    pub fn get_map<T: Copy>(value: T) -> (r: DimensionMap<T>)
        ensures
            forall|d: Dimension| r.spec_get(d) == value,
    {
        DimensionMap { x: value, y: value, z: value }
    }
}

/// An axis-aligned plane: an axis and a position along it.
#[derive(Clone, Copy, Debug, PartialEq, Eq, Structural)]
pub struct Plane {
    /// The axis the plane is orthogonal to.
    pub dimension: Dimension,
    /// The plane's position on that axis.
    pub pos: i64,
}

/// Does the plane's position lie strictly inside the region's extent on the
/// plane's axis?
pub open spec fn spec_is_cutting(p: Plane, space: AABB) -> bool {
    spec_axis(space.min, p.dimension) < p.pos && p.pos < spec_axis(space.max, p.dimension)
}

impl Plane {
    /// Create a new plane.
    pub fn new(dimension: Dimension, pos: i64) -> (r: Plane)
        ensures
            r == (Plane { dimension, pos }),
    {
        Plane { dimension, pos }
    }

    /// Create a new plane orthogonal to the first axis.
    pub fn new_x(pos: i64) -> (r: Plane)
        ensures
            r == (Plane { dimension: Dimension::X, pos }),
    {
        Plane { dimension: Dimension::X, pos }
    }

    /// Create a new plane orthogonal to the second axis.
    pub fn new_y(pos: i64) -> (r: Plane)
        ensures
            r == (Plane { dimension: Dimension::Y, pos }),
    {
        Plane { dimension: Dimension::Y, pos }
    }

    /// Create a new plane orthogonal to the third axis.
    pub fn new_z(pos: i64) -> (r: Plane)
        ensures
            r == (Plane { dimension: Dimension::Z, pos }),
    {
        Plane { dimension: Dimension::Z, pos }
    }

    /// Check whether the plane cuts the given region strictly.
    pub fn is_cutting(&self, space: &AABB) -> (r: bool)
        ensures
            r == spec_is_cutting(*self, *space),
    {
        match self.dimension {
            Dimension::X => space.min.x < self.pos && self.pos < space.max.x,
            Dimension::Y => space.min.y < self.pos && self.pos < space.max.y,
            Dimension::Z => space.min.z < self.pos && self.pos < space.max.z,
        }
    }
}

} // verus!
