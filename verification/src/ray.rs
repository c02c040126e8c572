use vstd::prelude::*;
use crate::aabb::{AABB, contains_box};
use crate::math::{Point3, Rat, Vec3, rat_le};
use crate::plane::Dimension;

verus! {

/// Sentinel magnitude for unconstrained slab intervals. Every ray parameter
/// at which an in-range ray can cross an in-range box face has magnitude at
/// most `COORD_LIMIT * 2`, which is strictly below this value.
pub const RAY_T_SENTINEL: i64 = 4194304;

/// Negated sentinel, the lower end of an unconstrained interval.
pub const RAY_T_SENTINEL_NEG: i64 = -4194304;

/// The point `orig + (tn/td) * dir` lies inside the slab `[mn, mx]` of one
/// axis, where `o` and `d` are the ray's origin and direction components on
/// that axis. Stated multiplied through by the positive denominator `td`.
pub open spec fn slab_ok(o: int, d: int, tn: int, td: int, mn: int, mx: int) -> bool {
    mn * td <= o * td + tn * d && o * td + tn * d <= mx * td
}

/// A ray with integer origin and direction. The per-axis sign of the
/// direction is extracted once at construction and reused by every box
/// test; the reciprocal direction itself is not stored, because the box
/// test divides exactly, keeping each crossing parameter as a rational.
#[derive(Clone, Copy, Debug)]
pub struct Ray {
    pub orig: Point3,
    pub dir: Vec3,
    pub sign: [bool; 3],
}

impl Ray {
    /// Origin and direction are in range and the sign mask matches the
    /// direction, as `from_values` sets it.
    pub open spec fn wf(self) -> bool {
        &&& self.orig.in_range()
        &&& self.dir.in_range()
        &&& self.sign[0] == (self.dir.x < 0)
        &&& self.sign[1] == (self.dir.y < 0)
        &&& self.sign[2] == (self.dir.z < 0)
    }

    pub fn from_values(origin: &Point3, direction: &Vec3) -> (r: Ray)
        requires
            origin.in_range(),
            direction.in_range(),
        ensures
            r.wf(),
            r.orig == *origin,
            r.dir == *direction,
    {
        let sign = [direction.x < 0, direction.y < 0, direction.z < 0];
        Ray { orig: *origin, dir: *direction, sign }
    }

    /// The point along the ray at parameter `t`, one rational per
    /// component, all sharing `t`'s denominator.
    pub fn at(&self, t: Rat) -> (r: (Rat, Rat, Rat))
        requires
            self.wf(),
            t.wf(),
            -0x20000000000 <= t.num <= 0x20000000000,
            t.den <= 0x20000000000,
        ensures
            r.0.num as int == self.orig.x * t.den + t.num * self.dir.x,
            r.1.num as int == self.orig.y * t.den + t.num * self.dir.y,
            r.2.num as int == self.orig.z * t.den + t.num * self.dir.z,
            r.0.den == t.den && r.1.den == t.den && r.2.den == t.den,
            r.0.wf() && r.1.wf() && r.2.wf(),
    {
        proof {
            lemma_at_products_bounded(self.orig.x as int, self.dir.x as int, t.num as int, t.den as int);
            lemma_at_products_bounded(self.orig.y as int, self.dir.y as int, t.num as int, t.den as int);
            lemma_at_products_bounded(self.orig.z as int, self.dir.z as int, t.num as int, t.den as int);
        }
        (
            Rat { num: self.orig.x * t.den + t.num * self.dir.x, den: t.den },
            Rat { num: self.orig.y * t.den + t.num * self.dir.y, den: t.den },
            Rat { num: self.orig.z * t.den + t.num * self.dir.z, den: t.den },
        )
    }
}

proof fn lemma_at_products_bounded(o: int, d: int, tn: int, td: int)
    requires
        -1048576 <= o <= 1048576,
        -1048576 <= d <= 1048576,
        -0x20000000000 <= tn <= 0x20000000000,
        0 < td <= 0x20000000000,
    ensures
        -0x2000000000000000 <= o * td <= 0x2000000000000000,
        -0x2000000000000000 <= tn * d <= 0x2000000000000000,
{
    assert(-0x2000000000000000 <= o * td <= 0x2000000000000000 && -0x2000000000000000 <= tn * d
        <= 0x2000000000000000) by (nonlinear_arith)
        requires
            -1048576 <= o <= 1048576,
            -1048576 <= d <= 1048576,
            -0x20000000000 <= tn <= 0x20000000000,
            0 < td <= 0x20000000000,
    ;
}

proof fn lemma_mul_le_mono(a: int, b: int, c: int)
    by (nonlinear_arith)
    requires
        a <= b,
        c > 0,
    ensures
        a * c <= b * c,
{
}

proof fn lemma_mul_lt_mono(a: int, b: int, c: int)
    by (nonlinear_arith)
    requires
        a < b,
        c > 0,
    ensures
        a * c < b * c,
{
}

/// A positive rational below another forces the other positive.
proof fn lemma_rat_pos_le(tn: int, td: int, mn: int, md: int)
    by (nonlinear_arith)
    requires
        tn > 0,
        td > 0,
        md > 0,
        rat_le(tn, td, mn, md),
    ensures
        mn > 0,
{
}

/// For a positive direction component, the slab condition is exactly the
/// crossing interval `[(mn-o)/d, (mx-o)/d]`.
proof fn lemma_axis_interval_pos(o: int, d: int, tn: int, td: int, mn: int, mx: int)
    by (nonlinear_arith)
    requires
        td > 0,
        d > 0,
    ensures
        slab_ok(o, d, tn, td, mn, mx) <==> (rat_le(mn - o, d, tn, td) && rat_le(
            tn,
            td,
            mx - o,
            d,
        )),
{
}

/// For a negative direction component, the slab condition is exactly the
/// crossing interval `[(o-mx)/(-d), (o-mn)/(-d)]`.
proof fn lemma_axis_interval_neg(o: int, d: int, tn: int, td: int, mn: int, mx: int)
    by (nonlinear_arith)
    requires
        td > 0,
        d < 0,
    ensures
        slab_ok(o, d, tn, td, mn, mx) <==> (rat_le(o - mx, -d, tn, td) && rat_le(
            tn,
            td,
            o - mn,
            -d,
        )),
{
}

/// The crossing interval of the ray with one slab, as rationals with
/// positive denominators. `None` means no parameter satisfies the slab (the
/// ray runs parallel to it, outside). A parallel ray inside the slab gets
/// the sentinel interval, which is wider than any real crossing interval.
fn axis_slab(o: i64, d: i64, sign: bool, mn: i64, mx: i64) -> (r: Option<(Rat, Rat)>)
    requires
        crate::math::in_coord_range(o as int),
        crate::math::in_coord_range(d as int),
        crate::math::in_coord_range(mn as int),
        crate::math::in_coord_range(mx as int),
        mn <= mx,
        sign == (d < 0),
    ensures
        d != 0 ==> r.is_some(),
        d == 0 ==> (r.is_some() <==> (mn <= o && o <= mx)),
        d == 0 && r.is_some() ==> r.unwrap().0 == (Rat { num: RAY_T_SENTINEL_NEG, den: 1 })
            && r.unwrap().1 == (Rat { num: RAY_T_SENTINEL, den: 1 }),
        r.is_some() ==> r.unwrap().0.wf() && r.unwrap().1.wf(),
        // interval within sentinels and non-empty
        r.is_some() ==> rat_le(
            -RAY_T_SENTINEL as int,
            1,
            r.unwrap().0.num as int,
            r.unwrap().0.den as int,
        ) && rat_le(r.unwrap().1.num as int, r.unwrap().1.den as int, RAY_T_SENTINEL as int, 1)
            && r.unwrap().0.spec_le(r.unwrap().1),
        // parameters inside the interval satisfy the slab
        r.is_some() ==> forall|tn: int, td: int|
            td > 0 && rat_le(r.unwrap().0.num as int, r.unwrap().0.den as int, tn, td) && rat_le(
                tn,
                td,
                r.unwrap().1.num as int,
                r.unwrap().1.den as int,
            ) ==> #[trigger] slab_ok(o as int, d as int, tn, td, mn as int, mx as int),
        // parameters satisfying the slab, within the sentinels, are in the interval
        r.is_some() ==> forall|tn: int, td: int|
            td > 0 && #[trigger] slab_ok(o as int, d as int, tn, td, mn as int, mx as int)
                && rat_le(-RAY_T_SENTINEL as int, 1, tn, td) && rat_le(
                tn,
                td,
                RAY_T_SENTINEL as int,
                1,
            ) ==> rat_le(r.unwrap().0.num as int, r.unwrap().0.den as int, tn, td) && rat_le(
                tn,
                td,
                r.unwrap().1.num as int,
                r.unwrap().1.den as int,
            ),
        // a real crossing interval bounds the parameter by the sentinels
        d != 0 ==> forall|tn: int, td: int|
            td > 0 && #[trigger] slab_ok(o as int, d as int, tn, td, mn as int, mx as int)
                ==> rat_le(-RAY_T_SENTINEL as int, 1, tn, td) && rat_le(
                tn,
                td,
                RAY_T_SENTINEL as int,
                1,
            ),
        r.is_none() ==> forall|tn: int, td: int|
            td > 0 ==> !#[trigger] slab_ok(o as int, d as int, tn, td, mn as int, mx as int),
{
    if d == 0 {
        if mn <= o && o <= mx {
            proof {
                assert forall|tn: int, td: int|
                    td > 0 implies #[trigger] slab_ok(
                    o as int,
                    d as int,
                    tn,
                    td,
                    mn as int,
                    mx as int,
                ) by {
                    lemma_mul_le_mono(mn as int, o as int, td);
                    lemma_mul_le_mono(o as int, mx as int, td);
                }
            }
            Some((Rat { num: RAY_T_SENTINEL_NEG, den: 1 }, Rat { num: RAY_T_SENTINEL, den: 1 }))
        } else {
            proof {
                assert forall|tn: int, td: int| td > 0 implies !#[trigger] slab_ok(
                    o as int,
                    d as int,
                    tn,
                    td,
                    mn as int,
                    mx as int,
                ) by {
                    if o < mn {
                        lemma_mul_lt_mono(o as int, mn as int, td);
                    } else {
                        lemma_mul_lt_mono(mx as int, o as int, td);
                    }
                }
            }
            None
        }
    } else {
        let near = if sign {
            mx
        } else {
            mn
        };
        let far = if sign {
            mn
        } else {
            mx
        };
        let lo = Rat::new(near - o, d);
        let hi = Rat::new(far - o, d);
        proof {
            let on = o as int;
            let dn = d as int;
            let mnn = mn as int;
            let mxn = mx as int;
            let s = RAY_T_SENTINEL as int;
            // interval endpoints within sentinels, non-empty
            if d > 0 {
                assert(lo.num == mnn - on && lo.den == dn);
                assert(hi.num == mxn - on && hi.den == dn);
                lemma_mul_le_mono(mnn - on, mxn - on, dn);
                assert(rat_le(-s, 1, lo.num as int, lo.den as int)) by (nonlinear_arith)
                    requires
                        lo.num >= -0x200000,
                        lo.den >= 1,
                        s == 0x400000,
                        lo.num as int == mnn - on,
                        lo.den == dn,
                ;
                assert(rat_le(hi.num as int, hi.den as int, s, 1)) by (nonlinear_arith)
                    requires
                        hi.num <= 0x200000,
                        hi.den >= 1,
                        s == 0x400000,
                ;
            } else {
                assert(lo.num as int == on - mxn && lo.den as int == -dn);
                assert(hi.num as int == on - mnn && hi.den as int == -dn);
                lemma_mul_le_mono(on - mxn, on - mnn, -dn);
                assert(rat_le(-s, 1, lo.num as int, lo.den as int)) by (nonlinear_arith)
                    requires
                        lo.num >= -0x200000,
                        lo.den >= 1,
                        s == 0x400000,
                ;
                assert(rat_le(hi.num as int, hi.den as int, s, 1)) by (nonlinear_arith)
                    requires
                        hi.num <= 0x200000,
                        hi.den >= 1,
                        s == 0x400000,
                ;
            }
            // interval membership is exactly the slab condition
            assert forall|tn: int, td: int|
                td > 0 && rat_le(lo.num as int, lo.den as int, tn, td) && rat_le(
                    tn,
                    td,
                    hi.num as int,
                    hi.den as int,
                ) implies #[trigger] slab_ok(on, dn, tn, td, mnn, mxn) by {
                if d > 0 {
                    lemma_axis_interval_pos(on, dn, tn, td, mnn, mxn);
                } else {
                    lemma_axis_interval_neg(on, dn, tn, td, mnn, mxn);
                }
            }
            assert forall|tn: int, td: int|
                td > 0 && #[trigger] slab_ok(on, dn, tn, td, mnn, mxn) implies rat_le(
                lo.num as int,
                lo.den as int,
                tn,
                td,
            ) && rat_le(tn, td, hi.num as int, hi.den as int) && rat_le(-s, 1, tn, td) && rat_le(
                tn,
                td,
                s,
                1,
            ) by {
                if d > 0 {
                    lemma_axis_interval_pos(on, dn, tn, td, mnn, mxn);
                } else {
                    lemma_axis_interval_neg(on, dn, tn, td, mnn, mxn);
                }
                crate::math::lemma_rat_le_trans(-s, 1, lo.num as int, lo.den as int, tn, td);
                crate::math::lemma_rat_le_trans(tn, td, hi.num as int, hi.den as int, s, 1);
            }
        }
        Some((lo, hi))
    }
}

/// The point at parameter `tn/td` lies inside the box, on every axis.
pub open spec fn on_ray_in_box(r: Ray, tn: int, td: int, b: AABB) -> bool {
    &&& slab_ok(r.orig.x as int, r.dir.x as int, tn, td, b.min.x as int, b.max.x as int)
    &&& slab_ok(r.orig.y as int, r.dir.y as int, tn, td, b.min.y as int, b.max.y as int)
    &&& slab_ok(r.orig.z as int, r.dir.z as int, tn, td, b.min.z as int, b.max.z as int)
}

/// The ray meets the box at some strictly positive parameter. This is the
/// acceptance condition of the slab test: the three per-axis crossing
/// intervals intersect, and the intersection reaches past the origin.
pub open spec fn ray_hits_box(r: Ray, b: AABB) -> bool {
    exists|tn: int, td: int| td > 0 && tn > 0 && on_ray_in_box(r, tn, td, b)
}

/// A point on the ray inside a box is inside every containing box.
pub proof fn lemma_on_ray_in_contained_box(r: Ray, tn: int, td: int, inner: AABB, outer: AABB)
    requires
        td > 0,
        contains_box(outer, inner),
        on_ray_in_box(r, tn, td, inner),
    ensures
        on_ray_in_box(r, tn, td, outer),
{
    assert(outer.min.spec_at(Dimension::X) <= inner.min.spec_at(Dimension::X) && inner.max.spec_at(
        Dimension::X,
    ) <= outer.max.spec_at(Dimension::X));
    assert(outer.min.spec_at(Dimension::Y) <= inner.min.spec_at(Dimension::Y) && inner.max.spec_at(
        Dimension::Y,
    ) <= outer.max.spec_at(Dimension::Y));
    assert(outer.min.spec_at(Dimension::Z) <= inner.min.spec_at(Dimension::Z) && inner.max.spec_at(
        Dimension::Z,
    ) <= outer.max.spec_at(Dimension::Z));
    lemma_slab_widen(r.orig.x as int, r.dir.x as int, tn, td, inner.min.x as int, inner.max.x as int, outer.min.x as int, outer.max.x as int);
    lemma_slab_widen(r.orig.y as int, r.dir.y as int, tn, td, inner.min.y as int, inner.max.y as int, outer.min.y as int, outer.max.y as int);
    lemma_slab_widen(r.orig.z as int, r.dir.z as int, tn, td, inner.min.z as int, inner.max.z as int, outer.min.z as int, outer.max.z as int);
}

proof fn lemma_slab_widen(o: int, d: int, tn: int, td: int, mn1: int, mx1: int, mn0: int, mx0: int)
    requires
        td > 0,
        mn0 <= mn1,
        mx1 <= mx0,
        slab_ok(o, d, tn, td, mn1, mx1),
    ensures
        slab_ok(o, d, tn, td, mn0, mx0),
{
    assert(mn0 * td <= mn1 * td && mx1 * td <= mx0 * td) by (nonlinear_arith)
        requires
            td > 0,
            mn0 <= mn1,
            mx1 <= mx0,
    ;
}

impl Ray {
    /// Slab test: the three per-axis crossing intervals are intersected and
    /// the box is hit exactly when the intersection is non-empty and reaches
    /// past the ray origin.
    pub fn intersect_aabb(&self, aabb: &AABB) -> (res: bool)
        requires
            self.wf(),
            aabb.valid(),
        ensures
            res == ray_hits_box(*self, *aabb),
    {
        let ghost r = *self;
        let ghost b = *aabb;
        let ghost s = RAY_T_SENTINEL as int;
        proof {
            assert(b.min.spec_at(Dimension::X) <= b.max.spec_at(Dimension::X));
            assert(b.min.spec_at(Dimension::Y) <= b.max.spec_at(Dimension::Y));
            assert(b.min.spec_at(Dimension::Z) <= b.max.spec_at(Dimension::Z));
        }
        let sx = axis_slab(self.orig.x, self.dir.x, self.sign[0], aabb.min.x, aabb.max.x);
        let (mut ray_min, mut ray_max) = match sx {
            None => {
                proof {
                    if ray_hits_box(r, b) {
                        let (tn, td) = choose|tn: int, td: int|
                            td > 0 && tn > 0 && on_ray_in_box(r, tn, td, b);
                        assert(slab_ok(r.orig.x as int, r.dir.x as int, tn, td, b.min.x as int, b.max.x as int));
                    }
                }
                return false;
            },
            Some(lh) => lh,
        };
        let ghost glx = ray_min;
        let ghost ghx = ray_max;
        let sy = axis_slab(self.orig.y, self.dir.y, self.sign[1], aabb.min.y, aabb.max.y);
        let (y_min, y_max) = match sy {
            None => {
                proof {
                    if ray_hits_box(r, b) {
                        let (tn, td) = choose|tn: int, td: int|
                            td > 0 && tn > 0 && on_ray_in_box(r, tn, td, b);
                        assert(slab_ok(r.orig.y as int, r.dir.y as int, tn, td, b.min.y as int, b.max.y as int));
                    }
                }
                return false;
            },
            Some(lh) => lh,
        };
        let ghost gly = y_min;
        let ghost ghy = y_max;
        if y_max.lt(&ray_min) || ray_max.lt(&y_min) {
            proof {
                if ray_hits_box(r, b) {
                    let (tn, td) = choose|tn: int, td: int|
                        td > 0 && tn > 0 && on_ray_in_box(r, tn, td, b);
                    assert(slab_ok(r.orig.x as int, r.dir.x as int, tn, td, b.min.x as int, b.max.x as int));
                    assert(slab_ok(r.orig.y as int, r.dir.y as int, tn, td, b.min.y as int, b.max.y as int));
                    if r.dir.x == 0 && r.dir.y == 0 {
                        // both intervals are the sentinel interval; they cannot conflict
                        assert(false);
                    } else {
                        // some constrained axis bounds the parameter by the sentinels,
                        // so both intervals contain it, against the conflict
                        assert(rat_le(-s, 1, tn, td) && rat_le(tn, td, s, 1));
                        assert(rat_le(glx.num as int, glx.den as int, tn, td) && rat_le(tn, td, ghx.num as int, ghx.den as int));
                        assert(rat_le(gly.num as int, gly.den as int, tn, td) && rat_le(tn, td, ghy.num as int, ghy.den as int));
                        if ghy.spec_lt(glx) {
                            crate::math::lemma_rat_le_lt_trans(tn, td, ghy.num as int, ghy.den as int, glx.num as int, glx.den as int);
                            crate::math::lemma_rat_lt_le_trans(tn, td, glx.num as int, glx.den as int, tn, td);
                        } else {
                            crate::math::lemma_rat_le_lt_trans(tn, td, ghx.num as int, ghx.den as int, gly.num as int, gly.den as int);
                            crate::math::lemma_rat_lt_le_trans(tn, td, gly.num as int, gly.den as int, tn, td);
                        }
                    }
                }
            }
            return false;
        }
        if ray_min.lt(&y_min) {
            ray_min = y_min;
        }
        if y_max.lt(&ray_max) {
            ray_max = y_max;
        }
        proof {
            assert(ray_min == glx || ray_min == gly);
            assert(ray_max == ghx || ray_max == ghy);
            assert(rat_le(glx.num as int, glx.den as int, ray_min.num as int, ray_min.den as int));
            assert(rat_le(gly.num as int, gly.den as int, ray_min.num as int, ray_min.den as int));
            assert(rat_le(ray_max.num as int, ray_max.den as int, ghx.num as int, ghx.den as int));
            assert(rat_le(ray_max.num as int, ray_max.den as int, ghy.num as int, ghy.den as int));
            assert(rat_le(ray_min.num as int, ray_min.den as int, ray_max.num as int, ray_max.den as int));
        }
        let ghost gl1 = ray_min;
        let ghost gh1 = ray_max;
        let sz = axis_slab(self.orig.z, self.dir.z, self.sign[2], aabb.min.z, aabb.max.z);
        let (z_min, z_max) = match sz {
            None => {
                proof {
                    if ray_hits_box(r, b) {
                        let (tn, td) = choose|tn: int, td: int|
                            td > 0 && tn > 0 && on_ray_in_box(r, tn, td, b);
                        assert(slab_ok(r.orig.z as int, r.dir.z as int, tn, td, b.min.z as int, b.max.z as int));
                    }
                }
                return false;
            },
            Some(lh) => lh,
        };
        let ghost glz = z_min;
        let ghost ghz = z_max;
        if z_max.lt(&ray_min) || ray_max.lt(&z_min) {
            proof {
                if ray_hits_box(r, b) {
                    let (tn, td) = choose|tn: int, td: int|
                        td > 0 && tn > 0 && on_ray_in_box(r, tn, td, b);
                    assert(slab_ok(r.orig.x as int, r.dir.x as int, tn, td, b.min.x as int, b.max.x as int));
                    assert(slab_ok(r.orig.y as int, r.dir.y as int, tn, td, b.min.y as int, b.max.y as int));
                    assert(slab_ok(r.orig.z as int, r.dir.z as int, tn, td, b.min.z as int, b.max.z as int));
                    if r.dir.x == 0 && r.dir.y == 0 && r.dir.z == 0 {
                        assert(false);
                    } else {
                        assert(rat_le(-s, 1, tn, td) && rat_le(tn, td, s, 1));
                        assert(rat_le(glx.num as int, glx.den as int, tn, td) && rat_le(tn, td, ghx.num as int, ghx.den as int));
                        assert(rat_le(gly.num as int, gly.den as int, tn, td) && rat_le(tn, td, ghy.num as int, ghy.den as int));
                        assert(rat_le(glz.num as int, glz.den as int, tn, td) && rat_le(tn, td, ghz.num as int, ghz.den as int));
                        assert(rat_le(gl1.num as int, gl1.den as int, tn, td));
                        assert(rat_le(tn, td, gh1.num as int, gh1.den as int));
                        if ghz.spec_lt(gl1) {
                            crate::math::lemma_rat_le_lt_trans(tn, td, ghz.num as int, ghz.den as int, gl1.num as int, gl1.den as int);
                            crate::math::lemma_rat_lt_le_trans(tn, td, gl1.num as int, gl1.den as int, tn, td);
                        } else {
                            crate::math::lemma_rat_le_lt_trans(tn, td, gh1.num as int, gh1.den as int, glz.num as int, glz.den as int);
                            crate::math::lemma_rat_lt_le_trans(tn, td, glz.num as int, glz.den as int, tn, td);
                        }
                    }
                }
            }
            return false;
        }
        if z_max.lt(&ray_max) {
            ray_max = z_max;
        }
        proof {
            assert(ray_max == gh1 || ray_max == ghz);
            assert(rat_le(ray_max.num as int, ray_max.den as int, gh1.num as int, gh1.den as int));
            assert(rat_le(ray_max.num as int, ray_max.den as int, ghz.num as int, ghz.den as int));
            // the final upper bound still lies in all three intervals and above the lower ones
            assert(rat_le(gl1.num as int, gl1.den as int, ray_max.num as int, ray_max.den as int)) by {
                if ray_max == ghz {
                    // gl1 <= ghz from the conflict check
                } else {
                }
            }
            assert(rat_le(glz.num as int, glz.den as int, ray_max.num as int, ray_max.den as int)) by {
                if ray_max == ghz {
                    // glz <= ghz from the axis interval itself
                } else {
                    // glz <= gh1 from the conflict check
                }
            }
        }
        let hit = ray_max.is_positive();
        proof {
            let m = ray_max;
            if hit {
                let tn = m.num as int;
                let td = m.den as int;
                // the final upper bound is a point in all three slabs
                assert(rat_le(glx.num as int, glx.den as int, tn, td)) by {
                    crate::math::lemma_rat_le_trans(glx.num as int, glx.den as int, gl1.num as int, gl1.den as int, tn, td);
                }
                assert(rat_le(tn, td, ghx.num as int, ghx.den as int)) by {
                    crate::math::lemma_rat_le_trans(tn, td, gh1.num as int, gh1.den as int, ghx.num as int, ghx.den as int);
                }
                assert(rat_le(gly.num as int, gly.den as int, tn, td)) by {
                    crate::math::lemma_rat_le_trans(gly.num as int, gly.den as int, gl1.num as int, gl1.den as int, tn, td);
                }
                assert(rat_le(tn, td, ghy.num as int, ghy.den as int)) by {
                    crate::math::lemma_rat_le_trans(tn, td, gh1.num as int, gh1.den as int, ghy.num as int, ghy.den as int);
                }
                assert(slab_ok(r.orig.x as int, r.dir.x as int, tn, td, b.min.x as int, b.max.x as int));
                assert(slab_ok(r.orig.y as int, r.dir.y as int, tn, td, b.min.y as int, b.max.y as int));
                assert(slab_ok(r.orig.z as int, r.dir.z as int, tn, td, b.min.z as int, b.max.z as int));
                assert(td > 0 && tn > 0 && on_ray_in_box(r, tn, td, b));
                assert(ray_hits_box(r, b));
            } else {
                if ray_hits_box(r, b) {
                    let (tn, td) = choose|tn: int, td: int|
                        td > 0 && tn > 0 && on_ray_in_box(r, tn, td, b);
                    assert(slab_ok(r.orig.x as int, r.dir.x as int, tn, td, b.min.x as int, b.max.x as int));
                    assert(slab_ok(r.orig.y as int, r.dir.y as int, tn, td, b.min.y as int, b.max.y as int));
                    assert(slab_ok(r.orig.z as int, r.dir.z as int, tn, td, b.min.z as int, b.max.z as int));
                    if r.dir.x == 0 && r.dir.y == 0 && r.dir.z == 0 {
                        // all three intervals are the sentinel interval, whose upper
                        // bound is positive
                        assert(false);
                    } else {
                        assert(rat_le(-s, 1, tn, td) && rat_le(tn, td, s, 1));
                        assert(rat_le(tn, td, ghx.num as int, ghx.den as int));
                        assert(rat_le(tn, td, ghy.num as int, ghy.den as int));
                        assert(rat_le(tn, td, ghz.num as int, ghz.den as int));
                        assert(rat_le(tn, td, m.num as int, m.den as int));
                        lemma_rat_pos_le(tn, td, m.num as int, m.den as int);
                    }
                }
            }
        }
        hit
    }
}

} // verus!
