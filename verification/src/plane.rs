use vstd::prelude::*;

verus! {

/// One of the three coordinate axes.
#[derive(Clone, Copy, Debug, PartialEq, Eq, Hash, Structural)]
pub enum Dimension {
    X,
    Y,
    Z,
}

impl Dimension {
    /// Rank used to order events: all X events sort before Y events,
    /// which sort before Z events.
    pub open spec fn rank(self) -> int {
        match self {
            Dimension::X => 0,
            Dimension::Y => 1,
            Dimension::Z => 2,
        }
    }
}

/// A splitting plane: an axis and a position along it.
#[derive(Clone, Copy, Debug, PartialEq, Eq, Structural)]
pub struct Plane {
    pub dimension: Dimension,
    pub pos: i64,
}

impl Plane {
    /// The plane strictly cuts `space`: its position lies strictly between
    /// the box's faces on the plane's axis. A plane that only touches a face
    /// does not cut the box.
    pub open spec fn spec_cutting(self, space: crate::aabb::AABB) -> bool {
        self.pos > space.min_at(self.dimension) && (self.pos as int) < space.max_at(
            self.dimension,
        )
    }

    pub fn new(dimension: Dimension, pos: i64) -> (p: Plane)
        ensures
            p == (Plane { dimension, pos }),
    {
        Plane { dimension, pos }
    }

    pub fn new_x(pos: i64) -> (p: Plane)
        ensures
            p == (Plane { dimension: Dimension::X, pos }),
    {
        Plane::new(Dimension::X, pos)
    }

    pub fn new_y(pos: i64) -> (p: Plane)
        ensures
            p == (Plane { dimension: Dimension::Y, pos }),
    {
        Plane::new(Dimension::Y, pos)
    }

    pub fn new_z(pos: i64) -> (p: Plane)
        ensures
            p == (Plane { dimension: Dimension::Z, pos }),
    {
        Plane::new(Dimension::Z, pos)
    }

    pub fn is_cutting(&self, space: &crate::aabb::AABB) -> (r: bool)
        ensures
            r == self.spec_cutting(*space),
    {
        let min = space.min.at(self.dimension);
        let max = space.max.at(self.dimension);
        self.pos > min && self.pos < max
    }
}

/// A plane whose position coincides with a face of the box does not cut it.
pub proof fn lemma_face_plane_not_cutting(p: Plane, space: crate::aabb::AABB)
    requires
        p.pos == space.min_at(p.dimension) || p.pos == space.max_at(p.dimension),
    ensures
        !p.spec_cutting(space),
{
}

} // verus!
