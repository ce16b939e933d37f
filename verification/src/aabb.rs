//! Axis-aligned bounding boxes over integer coordinates.

use vstd::prelude::*;

verus! {

/// Every finite coordinate handled by the tree lies in
/// `[-COORD_LIMIT, COORD_LIMIT]`.  The bound keeps all products computed by
/// the slab test and the cost model inside machine integers.
pub const COORD_LIMIT: i64 = 1_000_000;

/// A point or direction with one integer coordinate per axis.
#[derive(Clone, Copy, Debug, PartialEq, Eq, Structural)]
pub struct Vector3 {
    /// Coordinate on the first axis.
    pub x: i64,
    /// Coordinate on the second axis.
    pub y: i64,
    /// Coordinate on the third axis.
    pub z: i64,
}

impl Vector3 {
    /// Is every coordinate within `[-COORD_LIMIT, COORD_LIMIT]`?
    pub open spec fn wf(self) -> bool {
        &&& -COORD_LIMIT <= self.x <= COORD_LIMIT
        &&& -COORD_LIMIT <= self.y <= COORD_LIMIT
        &&& -COORD_LIMIT <= self.z <= COORD_LIMIT
    }

    /// Create a point from its three coordinates.
    pub fn new(x: i64, y: i64, z: i64) -> (r: Vector3)
        ensures
            r == (Vector3 { x, y, z }),
    {
        Vector3 { x, y, z }
    }
}

/// Axis-aligned bounding box, defined by its minimum and maximum corner.
#[derive(Clone, Copy, Debug, PartialEq, Eq, Structural)]
pub struct AABB {
    /// Minimum corner.
    pub min: Vector3,
    /// Maximum corner.
    pub max: Vector3,
}

/// Component-wise union of two boxes.
pub open spec fn spec_merge(a: AABB, b: AABB) -> AABB {
    AABB {
        min: Vector3 {
            x: if b.min.x < a.min.x { b.min.x } else { a.min.x },
            y: if b.min.y < a.min.y { b.min.y } else { a.min.y },
            z: if b.min.z < a.min.z { b.min.z } else { a.min.z },
        },
        max: Vector3 {
            x: if b.max.x > a.max.x { b.max.x } else { a.max.x },
            y: if b.max.y > a.max.y { b.max.y } else { a.max.y },
            z: if b.max.z > a.max.z { b.max.z } else { a.max.z },
        },
    }
}

/// Component-wise intersection of two boxes (possibly not well formed when
/// the boxes are disjoint).
pub open spec fn spec_clip(b: AABB, outer: AABB) -> AABB {
    AABB {
        min: Vector3 {
            x: if b.min.x > outer.min.x { b.min.x } else { outer.min.x },
            y: if b.min.y > outer.min.y { b.min.y } else { outer.min.y },
            z: if b.min.z > outer.min.z { b.min.z } else { outer.min.z },
        },
        max: Vector3 {
            x: if b.max.x < outer.max.x { b.max.x } else { outer.max.x },
            y: if b.max.y < outer.max.y { b.max.y } else { outer.max.y },
            z: if b.max.z < outer.max.z { b.max.z } else { outer.max.z },
        },
    }
}

/// Is `inner` contained in `outer`, component-wise?
pub open spec fn spec_inside(inner: AABB, outer: AABB) -> bool {
    &&& outer.min.x <= inner.min.x && inner.max.x <= outer.max.x
    &&& outer.min.y <= inner.min.y && inner.max.y <= outer.max.y
    &&& outer.min.z <= inner.min.z && inner.max.z <= outer.max.z
}

/// Product of the three extents of a box; the SAH weight of the region.
pub open spec fn spec_volume(b: AABB) -> int {
    (b.max.x - b.min.x) * (b.max.y - b.min.y) * (b.max.z - b.min.z)
}

/// The empty box: minimum at the largest, maximum at the smallest
/// representable coordinate, so that merging any box into it yields that
/// box.
pub open spec fn spec_empty_aabb() -> AABB {
    AABB {
        min: Vector3 { x: i64::MAX, y: i64::MAX, z: i64::MAX },
        max: Vector3 { x: i64::MIN, y: i64::MIN, z: i64::MIN },
    }
}

impl AABB {
    /// A box is well formed when its corners are ordered and all coordinates
    /// are within `[-COORD_LIMIT, COORD_LIMIT]`.
    pub open spec fn wf(self) -> bool {
        &&& self.min.wf()
        &&& self.max.wf()
        &&& self.min.x <= self.max.x
        &&& self.min.y <= self.max.y
        &&& self.min.z <= self.max.z
    }

    /// Create a new box from two corners.
    pub fn new(min: Vector3, max: Vector3) -> (r: AABB)
        ensures
            r == (AABB { min, max }),
    {
        AABB { min, max }
    }

    /// The empty box: minimum at `+infinity`, maximum at `-infinity`, so that
    /// merging any box into it yields that box.
    pub fn empty() -> (r: AABB)
        ensures
            r == spec_empty_aabb(),
    {
        AABB {
            min: Vector3 { x: i64::MAX, y: i64::MAX, z: i64::MAX },
            max: Vector3 { x: i64::MIN, y: i64::MIN, z: i64::MIN },
        }
    }

    /// Compute the box's volume: the product of its three extents.
    pub fn volume(&self) -> (v: i64)
        requires
            self.wf(),
        ensures
            v == spec_volume(*self),
            0 <= v <= 0x7000_0000_0000_0000,
    {
        let dx = self.max.x - self.min.x;
        let dy = self.max.y - self.min.y;
        let dz = self.max.z - self.min.z;
        assert(0 <= dx * dy <= 4_000_000_000_000) by (nonlinear_arith)
            requires
                0 <= dx <= 2_000_000,
                0 <= dy <= 2_000_000,
        ;
        let dxy = dx * dy;
        assert(0 <= dxy * dz <= 0x7000_0000_0000_0000) by (nonlinear_arith)
            requires
                0 <= dxy <= 4_000_000_000_000,
                0 <= dz <= 2_000_000,
        ;
        dxy * dz
    }

    /// Merge another box into this one, component-wise.
    pub fn merge(&mut self, other: &AABB)
        ensures
            *final(self) == spec_merge(*old(self), *other),
    {
        self.min = Vector3 {
            x: if other.min.x < self.min.x { other.min.x } else { self.min.x },
            y: if other.min.y < self.min.y { other.min.y } else { self.min.y },
            z: if other.min.z < self.min.z { other.min.z } else { self.min.z },
        };
        self.max = Vector3 {
            x: if other.max.x > self.max.x { other.max.x } else { self.max.x },
            y: if other.max.y > self.max.y { other.max.y } else { self.max.y },
            z: if other.max.z > self.max.z { other.max.z } else { self.max.z },
        };
    }
}

/// Merging any well-formed box into the empty box yields that box, so the
/// empty box is the unit of [`spec_merge`].
pub proof fn lemma_merge_empty(b: AABB)
    requires
        b.wf(),
    ensures
        spec_merge(spec_empty_aabb(), b) == b,
        spec_merge(b, spec_empty_aabb()) == b,
{
}

impl Default for AABB {
    /// The default box is the empty box.
    fn default() -> (r: AABB)
        ensures
            r == spec_empty_aabb(),
    {
        AABB::empty()
    }
}

/// The capability every indexable item must provide: an axis-aligned
/// bounding box for itself.
pub trait Bounded {
    /// The invariant under which the item can report its bound.
    spec fn inv(&self) -> bool;

    /// The bound the item reports, as a specification-level value.
    spec fn spec_bound(&self) -> AABB;

    /// Return the item's axis-aligned bounding box.
    fn bound(&self) -> (r: AABB)
        requires
            self.inv(),
        ensures
            r == self.spec_bound(),
            r.wf(),
    ;
}

impl Bounded for AABB {
    open spec fn inv(&self) -> bool {
        self.wf()
    }

    open spec fn spec_bound(&self) -> AABB {
        *self
    }

    fn bound(&self) -> (r: AABB) {
        *self
    }
}

} // verus!
