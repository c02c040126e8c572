use kdray::aabb::AABB;
use kdray::candidate::{Candidate, sort_candidates};
use kdray::config::{Animation, SamplingStrategy, TextureInterpolation};
use kdray::kdtree::split_space;
use kdray::math::{Point3, Rat, Vec3};
use kdray::plane::{Dimension, Plane};
use kdray::ray::Ray;

fn p(x: i64, y: i64, z: i64) -> Point3 {
    Vec3 { x, y, z }
}

fn bx(min: (i64, i64, i64), max: (i64, i64, i64)) -> AABB {
    AABB::new(p(min.0, min.1, min.2), p(max.0, max.1, max.2))
}

#[test]
fn merge_with_empty_returns_box_unchanged() {
    let a = bx((-3, 0, 2), (5, 7, 9));
    let mut m = a;
    m.merge(&AABB::empty());
    assert_eq!(m, a);
    let mut e = AABB::empty();
    e.merge(&a);
    assert_eq!(e, a);
}

#[test]
fn merge_of_two_empties_stays_empty() {
    let mut e = AABB::empty();
    e.merge(&AABB::empty());
    assert_eq!(e, AABB::empty());
}

#[test]
fn merge_takes_componentwise_extremes() {
    let mut a = bx((0, 0, 0), (2, 2, 2));
    let b = bx((-1, 1, 0), (1, 5, 2));
    a.merge(&b);
    assert_eq!(a, bx((-1, 0, 0), (2, 5, 2)));
}

#[test]
fn surface_of_unit_cube_is_six() {
    let a = bx((0, 0, 0), (1, 1, 1));
    assert_eq!(a.surface(), 6);
}

#[test]
fn surface_formula_exact() {
    // extents 2, 3, 4: 2 * (6 + 8 + 12) = 52
    let a = bx((0, 0, 0), (2, 3, 4));
    assert_eq!(a.surface(), 52);
}

#[test]
fn surface_of_degenerate_axis() {
    // flat along z: 2 * (2*3 + 0 + 0) = 12
    let a = bx((0, 0, 5), (2, 3, 5));
    assert_eq!(a.surface(), 12);
}

#[test]
fn default_box_is_empty() {
    let d: AABB = Default::default();
    assert_eq!(d, AABB::empty());
}

#[test]
fn plane_on_face_is_not_cutting() {
    let a = bx((0, 0, 0), (4, 4, 4));
    assert!(!Plane::new_x(0).is_cutting(&a));
    assert!(!Plane::new_x(4).is_cutting(&a));
    assert!(!Plane::new_y(0).is_cutting(&a));
    assert!(!Plane::new_y(4).is_cutting(&a));
    assert!(!Plane::new_z(0).is_cutting(&a));
    assert!(!Plane::new_z(4).is_cutting(&a));
}

#[test]
fn plane_strictly_inside_is_cutting() {
    let a = bx((0, 0, 0), (4, 4, 4));
    assert!(Plane::new_x(1).is_cutting(&a));
    assert!(Plane::new_y(3).is_cutting(&a));
    assert!(Plane::new_z(2).is_cutting(&a));
    assert!(!Plane::new_x(-1).is_cutting(&a));
    assert!(!Plane::new_x(5).is_cutting(&a));
}

#[test]
fn plane_does_not_cut_degenerate_axis() {
    let a = bx((0, 0, 0), (4, 4, 0));
    assert!(!Plane::new_z(0).is_cutting(&a));
}

#[test]
fn split_at_cutting_plane_reconstructs_box() {
    let a = bx((0, -2, 1), (8, 6, 9));
    for (pl, _) in [
        (Plane::new_x(3), 0),
        (Plane::new_y(0), 1),
        (Plane::new_z(5), 2),
    ] {
        assert!(pl.is_cutting(&a));
        let (l, r) = split_space(&a, &pl);
        let mut m = l;
        m.merge(&r);
        assert_eq!(m, a);
    }
}

#[test]
fn split_halves_share_the_plane() {
    let a = bx((0, 0, 0), (10, 10, 10));
    let (l, r) = split_space(&a, &Plane::new_x(4));
    assert_eq!(l, bx((0, 0, 0), (4, 10, 10)));
    assert_eq!(r, bx((4, 0, 0), (10, 10, 10)));
}

#[test]
fn split_clamps_an_outside_plane() {
    let a = bx((0, 0, 0), (10, 10, 10));
    let (l, r) = split_space(&a, &Plane::new_x(15));
    assert_eq!(l, a);
    assert_eq!(r, bx((10, 0, 0), (10, 10, 10)));
}

#[test]
fn rat_comparisons_are_exact() {
    let half = Rat::new(1, 2);
    let third = Rat::new(1, 3);
    assert!(third.lt(&half));
    assert!(third.le(&half));
    assert!(!half.lt(&third));
    let neg = Rat::new(1, -2);
    assert_eq!(neg.num, -1);
    assert_eq!(neg.den, 2);
    assert!(neg.lt(&third));
    assert!(!neg.is_positive());
    assert!(half.is_positive());
    // equal rationals in different representations
    let two_quarters = Rat::new(2, 4);
    assert!(half.le(&two_quarters) && two_quarters.le(&half));
}

#[test]
fn vec3_dot_is_exact() {
    let a = Vec3::from_values(1, -2, 3);
    let b = Vec3::from_values(4, 5, -6);
    assert_eq!(a.dot(&b), 4 - 10 - 18);
}

#[test]
fn vec3_componentwise_extremes_and_products() {
    let mut a = Vec3::from_values(1, 5, -3);
    a.assign_min(&Vec3::from_values(2, 4, -3));
    assert_eq!(a, Vec3::from_values(1, 4, -3));
    a.assign_max(&Vec3::from_values(0, 9, -2));
    assert_eq!(a, Vec3::from_values(1, 9, -2));
    assert_eq!(Vec3::from_values(1, 2, 2).length_squared(), 9);
    assert_eq!(Vec3::new(), Vec3::from_values(0, 0, 0));
    let c = Vec3::from_values(1, 0, 0).cross(&Vec3::from_values(0, 1, 0));
    assert_eq!(c, Vec3::from_values(0, 0, 1));
}

#[test]
fn ray_hits_box_in_front() {
    let r = Ray::from_values(&p(-5, 1, 1), &Vec3::from_values(1, 0, 0));
    assert!(r.intersect_aabb(&bx((0, 0, 0), (2, 2, 2))));
}

#[test]
fn ray_misses_box_beside_it() {
    let r = Ray::from_values(&p(-5, 5, 1), &Vec3::from_values(1, 0, 0));
    assert!(!r.intersect_aabb(&bx((0, 0, 0), (2, 2, 2))));
}

#[test]
fn box_behind_ray_origin_is_a_miss() {
    let r = Ray::from_values(&p(5, 1, 1), &Vec3::from_values(1, 0, 0));
    assert!(!r.intersect_aabb(&bx((0, 0, 0), (2, 2, 2))));
}

#[test]
fn negative_direction_reaches_box_behind_origin_axis() {
    let r = Ray::from_values(&p(5, 1, 1), &Vec3::from_values(-1, 0, 0));
    assert!(r.intersect_aabb(&bx((0, 0, 0), (2, 2, 2))));
}

#[test]
fn diagonal_ray_hits_cube_corner_region() {
    let r = Ray::from_values(&p(-1, -1, -1), &Vec3::from_values(1, 1, 1));
    assert!(r.intersect_aabb(&bx((0, 0, 0), (2, 2, 2))));
    let r2 = Ray::from_values(&p(-1, -1, -1), &Vec3::from_values(1, 1, -1));
    assert!(!r2.intersect_aabb(&bx((0, 0, 0), (2, 2, 2))));
}

#[test]
fn parallel_ray_inside_slab_hits() {
    // direction zero along y and z, origin inside those slabs
    let r = Ray::from_values(&p(-5, 1, 1), &Vec3::from_values(2, 0, 0));
    assert!(r.intersect_aabb(&bx((0, 0, 0), (4, 2, 2))));
    // origin outside the y slab: parallel, can never enter
    let r2 = Ray::from_values(&p(-5, 3, 1), &Vec3::from_values(2, 0, 0));
    assert!(!r2.intersect_aabb(&bx((0, 0, 0), (4, 2, 2))));
}

#[test]
fn ray_origin_inside_box_hits() {
    let r = Ray::from_values(&p(1, 1, 1), &Vec3::from_values(0, 0, 3));
    assert!(r.intersect_aabb(&bx((0, 0, 0), (2, 2, 2))));
}

#[test]
fn ray_at_returns_exact_rational_point() {
    let r = Ray::from_values(&p(1, 2, 3), &Vec3::from_values(2, 0, -1));
    let (x, y, z) = r.at(Rat::new(3, 2));
    // 1 + (3/2)*2 = 4, 2, 3 - 3/2 = 3/2
    assert_eq!(x.num, 1 * 2 + 3 * 2);
    assert_eq!(x.den, 2);
    assert_eq!(y.num, 4);
    assert_eq!(y.den, 2);
    assert_eq!(z.num, 3 * 2 - 3);
    assert_eq!(z.den, 2);
}

#[test]
fn events_sort_by_axis_then_position_then_end_before_begin() {
    let b0 = bx((0, 4, 8), (2, 6, 10));
    let mut evs: Vec<Candidate> = Candidate::gen_candidates(0, &b0);
    // a degenerate box whose begin and end on x coincide at 2
    evs.extend(Candidate::gen_candidates(1, &bx((2, 0, 0), (2, 1, 1))));
    sort_candidates(&mut evs);
    assert_eq!(evs.len(), 12);
    // all x events first, then y, then z
    let dims: Vec<Dimension> = evs.iter().map(|e| e.dimension()).collect();
    assert_eq!(
        dims,
        vec![
            Dimension::X,
            Dimension::X,
            Dimension::X,
            Dimension::X,
            Dimension::Y,
            Dimension::Y,
            Dimension::Y,
            Dimension::Y,
            Dimension::Z,
            Dimension::Z,
            Dimension::Z,
            Dimension::Z
        ]
    );
    // x events: begin(0)@0, then at 2 the ends come before the begin
    assert_eq!(evs[0].plane.pos, 0);
    assert!(evs[0].is_left());
    assert_eq!(evs[1].plane.pos, 2);
    assert!(evs[1].is_right());
    assert_eq!(evs[2].plane.pos, 2);
    assert!(evs[2].is_right());
    assert_eq!(evs[3].plane.pos, 2);
    assert!(evs[3].is_left());
    assert_eq!(evs[3].shape, 1);
}

#[test]
fn gen_candidates_emits_six_events() {
    let evs = Candidate::gen_candidates(7, &bx((0, 1, 2), (3, 4, 5)));
    assert_eq!(evs.len(), 6);
    assert!(evs.iter().all(|e| e.shape == 7));
    assert_eq!(evs.iter().filter(|e| e.is_left()).count(), 3);
    assert_eq!(evs.iter().filter(|e| e.is_right()).count(), 3);
}

#[test]
fn config_defaults() {
    assert_eq!(SamplingStrategy::default(), SamplingStrategy::Grid4x4);
    assert_eq!(TextureInterpolation::default(), TextureInterpolation::Nearest);
    let anim = Animation { duration: 10, frames_per_second: 24 };
    assert_eq!(anim.total_frames(), 240);
}
