use vstd::prelude::*;
use crate::math::{Point3, Vec3, in_coord_range};
use crate::plane::Dimension;

verus! {

/// An axis-aligned bounding box given by its componentwise minimum and
/// maximum corners. The canonical empty box puts the minimum corner at the
/// largest representable point and the maximum corner at the smallest, so
/// that merging any box with the empty box returns that box unchanged.
#[derive(Clone, Copy, Debug, PartialEq, Eq, Structural)]
pub struct AABB {
    pub min: Point3,
    pub max: Point3,
}

/// The canonical empty box.
pub open spec fn spec_empty() -> AABB {
    AABB {
        min: Vec3 { x: i64::MAX, y: i64::MAX, z: i64::MAX },
        max: Vec3 { x: i64::MIN, y: i64::MIN, z: i64::MIN },
    }
}

/// Componentwise union of two boxes.
pub open spec fn spec_merge(a: AABB, b: AABB) -> AABB {
    AABB {
        min: Vec3 {
            x: if a.min.x <= b.min.x { a.min.x } else { b.min.x },
            y: if a.min.y <= b.min.y { a.min.y } else { b.min.y },
            z: if a.min.z <= b.min.z { a.min.z } else { b.min.z },
        },
        max: Vec3 {
            x: if a.max.x >= b.max.x { a.max.x } else { b.max.x },
            y: if a.max.y >= b.max.y { a.max.y } else { b.max.y },
            z: if a.max.z >= b.max.z { a.max.z } else { b.max.z },
        },
    }
}

/// `outer` contains `inner`, componentwise.
pub open spec fn contains_box(outer: AABB, inner: AABB) -> bool {
    forall|d: Dimension|
        outer.min.spec_at(d) <= inner.min.spec_at(d) && inner.max.spec_at(d)
            <= outer.max.spec_at(d)
}

impl AABB {
    /// The minimum corner's component along `d`.
    pub open spec fn min_at(self, d: Dimension) -> int {
        self.min.spec_at(d)
    }

    /// The maximum corner's component along `d`.
    pub open spec fn max_at(self, d: Dimension) -> int {
        self.max.spec_at(d)
    }

    /// A real (non-empty, possibly degenerate) box with in-range corners.
    pub open spec fn valid(self) -> bool {
        &&& self.min.in_range()
        &&& self.max.in_range()
        &&& forall|d: Dimension| self.min.spec_at(d) <= self.max.spec_at(d)
    }

    /// The canonical empty box.
    pub open spec fn is_empty(self) -> bool {
        self == spec_empty()
    }

    /// The extent along `d`; zero for a degenerate axis.
    pub open spec fn extent(self, d: Dimension) -> int {
        self.max_at(d) - self.min_at(d)
    }

    /// Surface area: `2 * (dx*dy + dx*dz + dy*dz)`; the empty box has
    /// surface zero by convention.
    pub open spec fn spec_surface(self) -> int {
        if self.is_empty() {
            0
        } else {
            2 * (self.extent(Dimension::X) * self.extent(Dimension::Y) + self.extent(Dimension::X)
                * self.extent(Dimension::Z) + self.extent(Dimension::Y) * self.extent(
                Dimension::Z,
            ))
        }
    }

    pub fn new(min: Point3, max: Point3) -> (b: AABB)
        ensures
            b == (AABB { min, max }),
    {
        AABB { min, max }
    }

    /// The canonical empty box.
    pub fn empty() -> (b: AABB)
        ensures
            b == spec_empty(),
            b.is_empty(),
    {
        AABB {
            min: Vec3 { x: i64::MAX, y: i64::MAX, z: i64::MAX },
            max: Vec3 { x: i64::MIN, y: i64::MIN, z: i64::MIN },
        }
    }

    /// Grow this box to the componentwise union with `other`.
    pub fn merge(&mut self, other: &AABB)
        ensures
            *final(self) == spec_merge(*old(self), *other),
    {
        self.min = Vec3 {
            x: if self.min.x <= other.min.x { self.min.x } else { other.min.x },
            y: if self.min.y <= other.min.y { self.min.y } else { other.min.y },
            z: if self.min.z <= other.min.z { self.min.z } else { other.min.z },
        };
        self.max = Vec3 {
            x: if self.max.x >= other.max.x { self.max.x } else { other.max.x },
            y: if self.max.y >= other.max.y { self.max.y } else { other.max.y },
            z: if self.max.z >= other.max.z { self.max.z } else { other.max.z },
        };
    }

    /// Surface area of a real box, exact.
    pub fn surface(&self) -> (r: i64)
        requires
            self.valid(),
        ensures
            r as int == self.spec_surface(),
            0 <= r <= 0x200000000000,
    {
        let dx = self.max.x - self.min.x;
        let dy = self.max.y - self.min.y;
        let dz = self.max.z - self.min.z;
        proof {
            assert(self.min.spec_at(Dimension::X) <= self.max.spec_at(Dimension::X));
            assert(self.min.spec_at(Dimension::Y) <= self.max.spec_at(Dimension::Y));
            assert(self.min.spec_at(Dimension::Z) <= self.max.spec_at(Dimension::Z));
            assert(!self.is_empty());
            lemma_extent_product_bound(dx as int, dy as int);
            lemma_extent_product_bound(dx as int, dz as int);
            lemma_extent_product_bound(dy as int, dz as int);
        }
        2 * (dx * dy + dx * dz + dy * dz)
    }
}

impl Default for AABB {
    /// The default box is the canonical empty box.
    fn default() -> (b: AABB)
        ensures
            b == spec_empty(),
    {
        AABB::empty()
    }
}

/// Product of two extents of a valid box stays far inside `i64`.
pub proof fn lemma_extent_product_bound(a: int, b: int)
    requires
        0 <= a <= 0x200000,
        0 <= b <= 0x200000,
    ensures
        0 <= a * b <= 0x40000000000,
{
    assert(0 <= a * b <= 0x40000000000) by (nonlinear_arith)
        requires
            0 <= a <= 0x200000,
            0 <= b <= 0x200000,
    ;
}

/// Merging any box with the empty box returns that box unchanged; in
/// particular two empty boxes merge to the empty box.
pub proof fn lemma_merge_empty(a: AABB)
    ensures
        spec_merge(a, spec_empty()) == a,
        spec_merge(spec_empty(), a) == a,
        spec_merge(spec_empty(), spec_empty()) == spec_empty(),
{
}

/// The empty box's surface is zero by convention.
pub proof fn lemma_empty_surface()
    ensures
        spec_empty().spec_surface() == 0,
{
}

/// A merge contains both of its arguments.
pub proof fn lemma_merge_contains(a: AABB, b: AABB)
    ensures
        contains_box(spec_merge(a, b), a),
        contains_box(spec_merge(a, b), b),
{
    assert forall|d: Dimension|
        spec_merge(a, b).min.spec_at(d) <= a.min.spec_at(d) && a.max.spec_at(d) <= spec_merge(
            a,
            b,
        ).max.spec_at(d) by {
        match d {
            Dimension::X => {},
            Dimension::Y => {},
            Dimension::Z => {},
        }
    }
    assert forall|d: Dimension|
        spec_merge(a, b).min.spec_at(d) <= b.min.spec_at(d) && b.max.spec_at(d) <= spec_merge(
            a,
            b,
        ).max.spec_at(d) by {
        match d {
            Dimension::X => {},
            Dimension::Y => {},
            Dimension::Z => {},
        }
    }
}

/// Containment is transitive.
pub proof fn lemma_contains_trans(a: AABB, b: AABB, c: AABB)
    requires
        contains_box(a, b),
        contains_box(b, c),
    ensures
        contains_box(a, c),
{
}

/// A valid box merged with a valid box is valid; a valid box merged with the
/// empty box is that box.
pub proof fn lemma_merge_valid(a: AABB, b: AABB)
    requires
        a.valid(),
        b.valid(),
    ensures
        spec_merge(a, b).valid(),
{
    assert forall|d: Dimension|
        spec_merge(a, b).min.spec_at(d) <= spec_merge(a, b).max.spec_at(d) by {
        assert(a.min.spec_at(d) <= a.max.spec_at(d));
    }
    assert(in_coord_range(spec_merge(a, b).min.x as int));
}

} // verus!
