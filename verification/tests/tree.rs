use kdray::aabb::AABB;
use kdray::hittable::{HitRecord, Hittable, HittableList, hit_scan, shadow_hit_scan};
use kdray::kdtree::{KDTree, KDTreeNode};
use kdray::math::{Point3, Rat, Vec3};
use kdray::ray::Ray;

// Exact rational helpers over numerator/denominator pairs with positive
// denominators.
fn rle(a: (i128, i128), b: (i128, i128)) -> bool {
    a.0 * b.1 <= b.0 * a.1
}

fn rlt(a: (i128, i128), b: (i128, i128)) -> bool {
    a.0 * b.1 < b.0 * a.1
}

fn rat_eq(a: Rat, b: Rat) -> bool {
    (a.num as i128) * (b.den as i128) == (b.num as i128) * (a.den as i128)
}

/// An axis-aligned box whose surface is hit exactly where the ray crosses
/// into or out of it.
#[derive(Clone)]
struct BoxObj {
    min: [i64; 3],
    max: [i64; 3],
    id: usize,
}

impl BoxObj {
    fn new(min: [i64; 3], max: [i64; 3], id: usize) -> BoxObj {
        BoxObj { min, max, id }
    }

    /// The entry and exit parameters of the ray through this box, exact,
    /// or None when the ray misses it entirely.
    fn crossing(&self, r: &Ray) -> Option<((i128, i128), (i128, i128))> {
        let o = [r.orig.x, r.orig.y, r.orig.z];
        let d = [r.dir.x, r.dir.y, r.dir.z];
        let sent: i128 = 4194304;
        let mut lo: (i128, i128) = (-sent, 1);
        let mut hi: (i128, i128) = (sent, 1);
        for a in 0..3 {
            if d[a] == 0 {
                if o[a] < self.min[a] || o[a] > self.max[a] {
                    return None;
                }
            } else {
                let (aa, bb) = if d[a] > 0 {
                    ((self.min[a] - o[a]) as i128, d[a] as i128)
                } else {
                    ((o[a] - self.max[a]) as i128, -(d[a] as i128))
                };
                let (cc, dd) = if d[a] > 0 {
                    ((self.max[a] - o[a]) as i128, d[a] as i128)
                } else {
                    ((o[a] - self.min[a]) as i128, -(d[a] as i128))
                };
                if rlt(lo, (aa, bb)) {
                    lo = (aa, bb);
                }
                if rlt((cc, dd), hi) {
                    hi = (cc, dd);
                }
            }
        }
        if rle(lo, hi) { Some((lo, hi)) } else { None }
    }
}

impl Hittable for BoxObj {
    fn hit(&self, r: &Ray, t_min: Rat, t_max: Rat) -> Option<HitRecord> {
        let (lo, hi) = self.crossing(r)?;
        let tn = (t_min.num as i128, t_min.den as i128);
        let tx = (t_max.num as i128, t_max.den as i128);
        let t = if rle(tn, lo) && rle(lo, tx) {
            lo
        } else if rle(tn, hi) && rle(hi, tx) {
            hi
        } else {
            return None;
        };
        Some(HitRecord {
            p: Point3 { x: 0, y: 0, z: 0 },
            normal: Vec3 { x: 1, y: 0, z: 0 },
            t: Rat { num: t.0 as i64, den: t.1 as i64 },
            front_face: true,
            tex_coords: Vec3 { x: 0, y: 0, z: 0 },
            material: self.id,
        })
    }

    fn shadow_hit(&self, r: &Ray, t_min: Rat, t_max: Rat) -> bool {
        self.hit(r, t_min, t_max).is_some()
    }

    fn bound(&self) -> AABB {
        AABB::new(
            Point3 { x: self.min[0], y: self.min[1], z: self.min[2] },
            Point3 { x: self.max[0], y: self.max[1], z: self.max[2] },
        )
    }
}

fn list_of(objs: Vec<BoxObj>) -> HittableList<BoxObj> {
    let mut l: HittableList<BoxObj> = HittableList::new();
    l.extend(objs);
    l
}

fn ray(o: (i64, i64, i64), d: (i64, i64, i64)) -> Ray {
    Ray::from_values(
        &Point3 { x: o.0, y: o.1, z: o.2 },
        &Vec3 { x: d.0, y: d.1, z: d.2 },
    )
}

fn t_lo() -> Rat {
    Rat::new(1, 1000)
}

fn t_hi() -> Rat {
    Rat::new(100000, 1)
}

/// Every leaf's object indices, gathered over the whole arena.
fn leaf_union(tree: &Vec<KDTreeNode>) -> Vec<usize> {
    let mut all: Vec<usize> = Vec::new();
    for node in tree {
        if let KDTreeNode::Leaf { shapes } = node {
            all.extend(shapes.iter().copied());
        }
    }
    all.sort();
    all.dedup();
    all
}

#[test]
fn single_object_gives_one_leaf_with_that_index() {
    let t = KDTree::build(list_of(vec![BoxObj::new([0, 0, 0], [4, 4, 4], 0)]));
    assert_eq!(t.tree.len(), 1);
    match &t.tree[0] {
        KDTreeNode::Leaf { shapes } => assert_eq!(shapes, &vec![0usize]),
        KDTreeNode::Node { .. } => panic!("expected a single leaf"),
    }
}

#[test]
fn three_clusters_split_along_x_and_middle_box_is_hit() {
    // three unit boxes (scaled by 16) with disjoint x ranges
    let objs = vec![
        BoxObj::new([0, 0, 0], [16, 16, 16], 0),
        BoxObj::new([32, 0, 0], [48, 16, 16], 1),
        BoxObj::new([64, 0, 0], [80, 16, 16], 2),
    ];
    let t = KDTree::build(list_of(objs.clone()));
    // the root must be split, along x, strictly between the scene's faces
    match &t.tree[0] {
        KDTreeNode::Node { l_space, r_space, .. } => {
            let pos = l_space.max.x;
            assert_eq!(r_space.min.x, pos);
            assert!(0 < pos && pos < 80);
            // the other axes are untouched by the split
            assert_eq!(l_space.max.y, 16);
            assert_eq!(l_space.max.z, 16);
            assert_eq!(r_space.min.y, 0);
            assert_eq!(r_space.min.z, 0);
        },
        KDTreeNode::Leaf { .. } => panic!("expected a split at the root"),
    }
    // a ray starting between the first and second box, along x: the
    // closest hit is the middle box's near face, and the linear scan agrees
    let r = ray((24, 8, 8), (1, 0, 0));
    let from_tree = t.hit(&r, t_lo(), t_hi()).expect("tree hit");
    assert_eq!(from_tree.material, 1);
    assert!(rat_eq(from_tree.t, Rat::new(8, 1)));
    let from_list = list_of(objs).hit(&r, t_lo(), t_hi()).expect("list hit");
    assert_eq!(from_list.material, 1);
    assert!(rat_eq(from_tree.t, from_list.t));
}

#[test]
fn no_object_is_lost_in_the_leaves() {
    let objs: Vec<BoxObj> = (0..60)
        .map(|i| {
            let i64i = i as i64;
            BoxObj::new(
                [i64i * 7 % 100, i64i * 13 % 90, i64i * 29 % 80],
                [i64i * 7 % 100 + 5, i64i * 13 % 90 + 5, i64i * 29 % 80 + 5],
                i,
            )
        })
        .collect();
    let t = KDTree::build(list_of(objs));
    assert_eq!(leaf_union(&t.tree), (0..60).collect::<Vec<usize>>());
}

#[test]
fn tree_and_linear_scan_agree_on_simple_scene() {
    let objs = vec![
        BoxObj::new([0, 0, 0], [10, 10, 10], 0),
        BoxObj::new([20, 0, 0], [30, 10, 10], 1),
        BoxObj::new([5, 20, 5], [15, 25, 8], 2),
        BoxObj::new([-30, -30, -30], [-20, -20, -20], 3),
    ];
    let t = KDTree::build(list_of(objs.clone()));
    let l = list_of(objs);
    let rays = [
        ray((-5, 5, 5), (1, 0, 0)),
        ray((25, -5, 5), (0, 1, 0)),
        ray((7, 30, 7), (0, -1, 0)),
        ray((0, 0, 0), (-1, -1, -1)),
        ray((50, 50, 50), (1, 1, 1)),
        ray((-40, -25, -25), (1, 0, 0)),
        ray((5, 5, -5), (0, 0, 1)),
    ];
    for r in rays.iter() {
        let a = t.hit(r, t_lo(), t_hi());
        let b = l.hit(r, t_lo(), t_hi());
        match (a, b) {
            (Some(x), Some(y)) => assert!(rat_eq(x.t, y.t)),
            (None, None) => {},
            _ => panic!("tree and linear scan disagree"),
        }
        assert_eq!(t.shadow_hit(r, t_lo(), t_hi()), l.shadow_hit(r, t_lo(), t_hi()));
    }
}

#[test]
fn narrowed_range_excludes_near_and_far_hits() {
    let objs = vec![
        BoxObj::new([0, 0, 0], [2, 2, 2], 0),
        BoxObj::new([10, 0, 0], [12, 2, 2], 1),
    ];
    let t = KDTree::build(list_of(objs.clone()));
    let l = list_of(objs);
    let r = ray((-4, 1, 1), (1, 0, 0));
    // only the far box's near face falls in [8, 15]
    let a = t.hit(&r, Rat::new(8, 1), Rat::new(15, 1)).expect("in range");
    assert_eq!(a.material, 1);
    assert!(rat_eq(a.t, Rat::new(14, 1)));
    let b = l.hit(&r, Rat::new(8, 1), Rat::new(15, 1)).expect("in range");
    assert!(rat_eq(a.t, b.t));
    // nothing at all in [100, 200]
    assert!(t.hit(&r, Rat::new(100, 1), Rat::new(200, 1)).is_none());
    assert!(!t.shadow_hit(&r, Rat::new(100, 1), Rat::new(200, 1)));
}

#[test]
fn coincident_faces_are_not_double_counted() {
    // two boxes sharing the face x == 10, and a zero-thickness box on it
    let objs = vec![
        BoxObj::new([0, 0, 0], [10, 10, 10], 0),
        BoxObj::new([10, 0, 0], [20, 10, 10], 1),
        BoxObj::new([10, 0, 0], [10, 10, 10], 2),
    ];
    let t = KDTree::build(list_of(objs.clone()));
    let l = list_of(objs);
    assert_eq!(leaf_union(&t.tree), vec![0, 1, 2]);
    let rays = [
        ray((-5, 5, 5), (1, 0, 0)),
        ray((25, 5, 5), (-1, 0, 0)),
        ray((10, 5, -5), (0, 0, 1)),
    ];
    for r in rays.iter() {
        let a = t.hit(r, t_lo(), t_hi());
        let b = l.hit(r, t_lo(), t_hi());
        match (a, b) {
            (Some(x), Some(y)) => assert!(rat_eq(x.t, y.t)),
            (None, None) => {},
            _ => panic!("tree and linear scan disagree"),
        }
    }
}

#[test]
fn scattered_boxes_match_brute_force() {
    // 1000 random small boxes in a large, mostly empty volume
    let mut state: u64 = 0x2545F4914F6CDD1D;
    let mut next = move || {
        state ^= state << 13;
        state ^= state >> 7;
        state ^= state << 17;
        state
    };
    let mut objs: Vec<BoxObj> = Vec::new();
    for i in 0..1000 {
        let cx = (next() % 200000) as i64 - 100000;
        let cy = (next() % 200000) as i64 - 100000;
        let cz = (next() % 200000) as i64 - 100000;
        let sx = (next() % 400) as i64 + 1;
        let sy = (next() % 400) as i64 + 1;
        let sz = (next() % 400) as i64 + 1;
        objs.push(BoxObj::new([cx, cy, cz], [cx + sx, cy + sy, cz + sz], i));
    }
    let t = KDTree::build(list_of(objs.clone()));
    let l = list_of(objs);
    // no object lost
    assert_eq!(leaf_union(&t.tree), (0..1000).collect::<Vec<usize>>());
    // traversal answers exactly as brute force over a spread of rays
    let mut hits: usize = 0;
    for _ in 0..40 {
        let ox = (next() % 300000) as i64 - 150000;
        let oy = (next() % 300000) as i64 - 150000;
        let oz = (next() % 300000) as i64 - 150000;
        let dx = (next() % 2001) as i64 - 1000;
        let dy = (next() % 2001) as i64 - 1000;
        let dz = (next() % 2001) as i64 - 1000;
        if dx == 0 && dy == 0 && dz == 0 {
            continue;
        }
        let r = ray((ox, oy, oz), (dx, dy, dz));
        let a = t.hit(&r, t_lo(), t_hi());
        let b = l.hit(&r, t_lo(), t_hi());
        match (a, b) {
            (Some(x), Some(y)) => {
                assert!(rat_eq(x.t, y.t));
                hits += 1;
            },
            (None, None) => {},
            _ => panic!("tree and linear scan disagree"),
        }
        assert_eq!(t.shadow_hit(&r, t_lo(), t_hi()), l.shadow_hit(&r, t_lo(), t_hi()));
    }
    // rays straight at known boxes must hit both ways
    let target = &t.hittables.objects[17];
    let r = ray(
        (target.min[0] - 50, target.min[1] + 1, target.min[2] + 1),
        (1, 0, 0),
    );
    let a = t.hit(&r, t_lo(), t_hi());
    let b = l.hit(&r, t_lo(), t_hi());
    assert!(a.is_some() && b.is_some());
    assert!(rat_eq(a.unwrap().t, b.unwrap().t));
    let _ = hits;
}

#[test]
fn duplicate_objects_are_all_kept_and_agree() {
    // two identical boxes and a third equal except for its id
    let objs = vec![
        BoxObj::new([0, 0, 0], [4, 4, 4], 0),
        BoxObj::new([0, 0, 0], [4, 4, 4], 1),
        BoxObj::new([0, 0, 0], [4, 4, 4], 2),
    ];
    let t = KDTree::build(list_of(objs.clone()));
    let l = list_of(objs);
    assert_eq!(leaf_union(&t.tree), vec![0, 1, 2]);
    let r = ray((-3, 2, 2), (1, 0, 0));
    let a = t.hit(&r, t_lo(), t_hi()).expect("hit");
    let b = l.hit(&r, t_lo(), t_hi()).expect("hit");
    assert!(rat_eq(a.t, b.t));
    assert!(rat_eq(a.t, Rat::new(3, 1)));
}

#[test]
fn zero_direction_ray_agrees_between_tree_and_scan() {
    let objs = vec![
        BoxObj::new([0, 0, 0], [4, 4, 4], 0),
        BoxObj::new([10, 10, 10], [14, 14, 14], 1),
    ];
    let t = KDTree::build(list_of(objs.clone()));
    let l = list_of(objs);
    // a ray that goes nowhere, starting inside the first box
    let r = ray((2, 2, 2), (0, 0, 0));
    let a = t.hit(&r, t_lo(), t_hi());
    let b = l.hit(&r, t_lo(), t_hi());
    match (a, b) {
        (Some(x), Some(y)) => assert!(rat_eq(x.t, y.t)),
        (None, None) => {},
        _ => panic!("tree and linear scan disagree"),
    }
    assert_eq!(t.shadow_hit(&r, t_lo(), t_hi()), l.shadow_hit(&r, t_lo(), t_hi()));
}

#[test]
fn direct_scans_find_closest_and_any() {
    let objs = vec![
        BoxObj::new([0, 0, 0], [2, 2, 2], 0),
        BoxObj::new([6, 0, 0], [8, 2, 2], 1),
    ];
    let v: Vec<BoxObj> = objs;
    let r = ray((-2, 1, 1), (1, 0, 0));
    let rec = hit_scan(&v, &r, t_lo(), t_hi()).expect("closest");
    assert_eq!(rec.material, 0);
    assert!(rat_eq(rec.t, Rat::new(2, 1)));
    assert!(shadow_hit_scan(&v, &r, t_lo(), t_hi()));
    let r_miss = ray((-2, 5, 1), (1, 0, 0));
    assert!(hit_scan(&v, &r_miss, t_lo(), t_hi()).is_none());
    assert!(!shadow_hit_scan(&v, &r_miss, t_lo(), t_hi()));
}

#[test]
fn hit_record_face_flag_follows_normal() {
    let r = ray((0, 0, 0), (1, 0, 0));
    let rec = HitRecord::from_values(
        &r,
        Point3 { x: 5, y: 0, z: 0 },
        &Vec3 { x: -1, y: 0, z: 0 },
        Rat::new(5, 1),
        Vec3 { x: 0, y: 0, z: 0 },
        3,
    );
    assert!(rec.front_face);
    assert_eq!(rec.material, 3);
    let rec2 = HitRecord::from_values(
        &r,
        Point3 { x: 5, y: 0, z: 0 },
        &Vec3 { x: 1, y: 0, z: 0 },
        Rat::new(5, 1),
        Vec3 { x: 0, y: 0, z: 0 },
        3,
    );
    assert!(!rec2.front_face);
}

#[test]
fn tree_bound_is_the_dummy_empty_box() {
    let t = KDTree::build(list_of(vec![BoxObj::new([0, 0, 0], [1, 1, 1], 0)]));
    assert_eq!(t.bound(), AABB::empty());
}
