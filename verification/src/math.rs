use vstd::prelude::*;
use crate::plane::Dimension;

verus! {

/// Coordinates of every point, direction and box handed to the tree are
/// fixed-point values in `[-COORD_LIMIT, COORD_LIMIT]`. The bound keeps every
/// surface-area product and every cross-multiplied ray comparison far inside
/// the machine integer ranges.
pub const COORD_LIMIT: i64 = 1048576;

/// A coordinate within the range the library accepts.
pub open spec fn in_coord_range(v: int) -> bool {
    -(COORD_LIMIT as int) <= v <= COORD_LIMIT as int
}

/// A vector (or point) with three integer components.
#[derive(Clone, Copy, Debug, PartialEq, Eq, Hash, Structural)]
pub struct Vec3 {
    pub x: i64,
    pub y: i64,
    pub z: i64,
}

/// Points share the vector representation.
pub type Point3 = Vec3;

/// `v` with the component along `d` replaced by `x`.
pub open spec fn spec_with_at(v: Vec3, d: Dimension, x: int) -> Vec3 {
    match d {
        Dimension::X => Vec3 { x: x as i64, y: v.y, z: v.z },
        Dimension::Y => Vec3 { x: v.x, y: x as i64, z: v.z },
        Dimension::Z => Vec3 { x: v.x, y: v.y, z: x as i64 },
    }
}

impl Vec3 {
    /// The component along `d`, as a mathematical integer.
    pub open spec fn spec_at(self, d: Dimension) -> int {
        match d {
            Dimension::X => self.x as int,
            Dimension::Y => self.y as int,
            Dimension::Z => self.z as int,
        }
    }

    /// All three components are within the accepted coordinate range.
    pub open spec fn in_range(self) -> bool {
        in_coord_range(self.x as int) && in_coord_range(self.y as int)
            && in_coord_range(self.z as int)
    }

    pub fn from_values(x: i64, y: i64, z: i64) -> (v: Vec3)
        ensures
            v == (Vec3 { x, y, z }),
    {
        Vec3 { x, y, z }
    }

    /// The component along `d`.
    pub fn at(&self, d: Dimension) -> (v: i64)
        ensures
            v as int == self.spec_at(d),
    {
        match d {
            Dimension::X => self.x,
            Dimension::Y => self.y,
            Dimension::Z => self.z,
        }
    }

    /// The vector with the component along `d` replaced by `v`.
    pub fn with_at(&self, d: Dimension, v: i64) -> (r: Vec3)
        ensures
            r == spec_with_at(*self, d, v as int),
            r.spec_at(d) == v as int,
            forall|e: Dimension| e != d ==> r.spec_at(e) == self.spec_at(e),
    {
        match d {
            Dimension::X => Vec3 { x: v, ..*self },
            Dimension::Y => Vec3 { y: v, ..*self },
            Dimension::Z => Vec3 { z: v, ..*self },
        }
    }

    pub fn new() -> (v: Vec3)
        ensures
            v == (Vec3 { x: 0, y: 0, z: 0 }),
    {
        Vec3 { x: 0, y: 0, z: 0 }
    }

    /// Keep the componentwise minimum of this vector and `other`.
    pub fn assign_min(&mut self, other: &Vec3)
        ensures
            final(self).x == if old(self).x <= other.x { old(self).x } else { other.x },
            final(self).y == if old(self).y <= other.y { old(self).y } else { other.y },
            final(self).z == if old(self).z <= other.z { old(self).z } else { other.z },
    {
        self.x = if self.x <= other.x {
            self.x
        } else {
            other.x
        };
        self.y = if self.y <= other.y {
            self.y
        } else {
            other.y
        };
        self.z = if self.z <= other.z {
            self.z
        } else {
            other.z
        };
    }

    /// Keep the componentwise maximum of this vector and `other`.
    pub fn assign_max(&mut self, other: &Vec3)
        ensures
            final(self).x == if old(self).x >= other.x { old(self).x } else { other.x },
            final(self).y == if old(self).y >= other.y { old(self).y } else { other.y },
            final(self).z == if old(self).z >= other.z { old(self).z } else { other.z },
    {
        self.x = if self.x >= other.x {
            self.x
        } else {
            other.x
        };
        self.y = if self.y >= other.y {
            self.y
        } else {
            other.y
        };
        self.z = if self.z >= other.z {
            self.z
        } else {
            other.z
        };
    }

    /// Squared length, exact.
    pub fn length_squared(&self) -> (r: i64)
        requires
            self.in_range(),
        ensures
            r as int == self.x * self.x + self.y * self.y + self.z * self.z,
            r >= 0,
    {
        proof {
            assert(self.x * self.x >= 0 && self.y * self.y >= 0 && self.z * self.z >= 0)
                by (nonlinear_arith);
        }
        self.dot(self)
    }

    /// Cross product, exact.
    pub fn cross(&self, other: &Vec3) -> (r: Vec3)
        requires
            self.in_range(),
            other.in_range(),
        ensures
            r.x as int == self.y * other.z - self.z * other.y,
            r.y as int == self.z * other.x - self.x * other.z,
            r.z as int == self.x * other.y - self.y * other.x,
    {
        proof {
            lemma_coord_product_bound(self.y as int, other.z as int);
            lemma_coord_product_bound(self.z as int, other.y as int);
            lemma_coord_product_bound(self.z as int, other.x as int);
            lemma_coord_product_bound(self.x as int, other.z as int);
            lemma_coord_product_bound(self.x as int, other.y as int);
            lemma_coord_product_bound(self.y as int, other.x as int);
        }
        Vec3 {
            x: self.y * other.z - self.z * other.y,
            y: self.z * other.x - self.x * other.z,
            z: self.x * other.y - self.y * other.x,
        }
    }

    /// Dot product, exact.
    pub fn dot(&self, other: &Vec3) -> (r: i64)
        requires
            self.in_range(),
            other.in_range(),
        ensures
            r as int == self.x * other.x + self.y * other.y + self.z * other.z,
    {
        proof {
            lemma_coord_product_bound(self.x as int, other.x as int);
            lemma_coord_product_bound(self.y as int, other.y as int);
            lemma_coord_product_bound(self.z as int, other.z as int);
        }
        self.x * other.x + self.y * other.y + self.z * other.z
    }
}

/// Product of two `i64` values always fits in `i128`.
pub proof fn lemma_i64_product_fits(a: int, b: int)
    requires
        i64::MIN <= a <= i64::MAX,
        i64::MIN <= b <= i64::MAX,
    ensures
        i128::MIN <= a * b <= i128::MAX,
{
    assert(i128::MIN <= a * b <= i128::MAX) by (nonlinear_arith)
        requires
            -0x8000000000000000 <= a <= 0x7fffffffffffffff,
            -0x8000000000000000 <= b <= 0x7fffffffffffffff,
    ;
}

/// Product of two in-range coordinates stays far inside `i64`.
pub proof fn lemma_coord_product_bound(a: int, b: int)
    requires
        in_coord_range(a),
        in_coord_range(b),
    ensures
        -0x10000000000 <= a * b <= 0x10000000000,
{
    assert(-0x10000000000 <= a * b <= 0x10000000000) by (nonlinear_arith)
        requires
            -1048576 <= a <= 1048576,
            -1048576 <= b <= 1048576,
    ;
}

/// `a/b <= c/d` for rationals given as numerator/denominator pairs with
/// positive denominators.
pub open spec fn rat_le(an: int, ad: int, bn: int, bd: int) -> bool {
    an * bd <= bn * ad
}

/// `a/b < c/d`, positive denominators.
pub open spec fn rat_lt(an: int, ad: int, bn: int, bd: int) -> bool {
    an * bd < bn * ad
}

/// A ray parameter: the exact rational `num / den`, with `den > 0`.
#[derive(Clone, Copy, Debug)]
pub struct Rat {
    pub num: i64,
    pub den: i64,
}

impl Rat {
    /// Well-formed parameters keep the denominator positive.
    pub open spec fn wf(self) -> bool {
        self.den > 0
    }

    /// This parameter, `<=` the other, as exact rationals.
    pub open spec fn spec_le(self, other: Rat) -> bool {
        rat_le(self.num as int, self.den as int, other.num as int, other.den as int)
    }

    /// This parameter, `<` the other, as exact rationals.
    pub open spec fn spec_lt(self, other: Rat) -> bool {
        rat_lt(self.num as int, self.den as int, other.num as int, other.den as int)
    }

    /// Equal as rationals (the representations may differ).
    pub open spec fn spec_eq(self, other: Rat) -> bool {
        self.num * other.den == other.num * self.den
    }

    /// Strictly positive as a rational.
    pub open spec fn spec_pos(self) -> bool {
        self.num > 0
    }

    /// The rational `num / den`; a negative denominator is folded into the
    /// numerator so that the stored denominator is positive.
    pub fn new(num: i64, den: i64) -> (r: Rat)
        requires
            den != 0,
            num != i64::MIN,
            den != i64::MIN,
        ensures
            r.wf(),
            den > 0 ==> r == (Rat { num, den }),
            den < 0 ==> r.num as int == -(num as int) && r.den as int == -(den as int),
    {
        if den > 0 {
            Rat { num, den }
        } else {
            Rat { num: -num, den: -den }
        }
    }

    pub fn le(&self, other: &Rat) -> (r: bool)
        requires
            self.wf(),
            other.wf(),
        ensures
            r == self.spec_le(*other),
    {
        proof {
            lemma_i64_product_fits(self.num as int, other.den as int);
            lemma_i64_product_fits(other.num as int, self.den as int);
        }
        (self.num as i128) * (other.den as i128) <= (other.num as i128) * (self.den as i128)
    }

    pub fn lt(&self, other: &Rat) -> (r: bool)
        requires
            self.wf(),
            other.wf(),
        ensures
            r == self.spec_lt(*other),
    {
        proof {
            lemma_i64_product_fits(self.num as int, other.den as int);
            lemma_i64_product_fits(other.num as int, self.den as int);
        }
        (self.num as i128) * (other.den as i128) < (other.num as i128) * (self.den as i128)
    }

    pub fn is_positive(&self) -> (r: bool)
        requires
            self.wf(),
        ensures
            r == self.spec_pos(),
    {
        self.num > 0
    }
}

/// Transitivity of `<=` on rationals with positive denominators.
pub proof fn lemma_rat_le_trans(an: int, ad: int, bn: int, bd: int, cn: int, cd: int)
    by (nonlinear_arith)
    requires
        ad > 0,
        bd > 0,
        cd > 0,
        rat_le(an, ad, bn, bd),
        rat_le(bn, bd, cn, cd),
    ensures
        rat_le(an, ad, cn, cd),
{
}

/// `a <= b < c` gives `a < c` on rationals with positive denominators.
pub proof fn lemma_rat_le_lt_trans(an: int, ad: int, bn: int, bd: int, cn: int, cd: int)
    by (nonlinear_arith)
    requires
        ad > 0,
        bd > 0,
        cd > 0,
        rat_le(an, ad, bn, bd),
        rat_lt(bn, bd, cn, cd),
    ensures
        rat_lt(an, ad, cn, cd),
{
}

/// `a < b <= c` gives `a < c` on rationals with positive denominators.
pub proof fn lemma_rat_lt_le_trans(an: int, ad: int, bn: int, bd: int, cn: int, cd: int)
    by (nonlinear_arith)
    requires
        ad > 0,
        bd > 0,
        cd > 0,
        rat_lt(an, ad, bn, bd),
        rat_le(bn, bd, cn, cd),
    ensures
        rat_lt(an, ad, cn, cd),
{
}

} // verus!
