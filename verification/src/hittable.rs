use vstd::prelude::*;
use crate::aabb::{AABB, spec_empty, spec_merge};
use crate::math::{Point3, Rat, Vec3, rat_le, rat_lt};
use crate::ray::Ray;

verus! {

/// A successful intersection: the hit point (rounded to the coordinate
/// grid by the implementer), the geometric normal, the exact ray parameter,
/// the facing flag, the surface parameterization, and an identifier with
/// which the shading layer resolves the hit object's material.
#[derive(Clone, Copy, Debug)]
pub struct HitRecord {
    pub p: Point3,
    pub normal: Vec3,
    pub t: Rat,
    pub front_face: bool,
    pub tex_coords: Vec3,
    pub material: usize,
}

impl HitRecord {
    /// Build a record, deriving the facing flag from the angle between the
    /// ray and the outward normal.
    pub fn from_values(
        r: &Ray,
        p: Point3,
        outward_normal: &Vec3,
        t: Rat,
        tex_coords: Vec3,
        material: usize,
    ) -> (rec: HitRecord)
        requires
            r.wf(),
            outward_normal.in_range(),
        ensures
            rec.p == p,
            rec.normal == *outward_normal,
            rec.t == t,
            rec.tex_coords == tex_coords,
            rec.material == material,
            rec.front_face == (r.dir.x * outward_normal.x + r.dir.y * outward_normal.y + r.dir.z
                * outward_normal.z < 0),
    {
        let front_face = r.dir.dot(outward_normal) < 0;
        HitRecord { p, normal: *outward_normal, t, front_face, tex_coords, material }
    }
}

/// The capability every intersectable object offers: nearest-hit and
/// any-hit queries over a parameter range, and a bound. The two ghost
/// functions fix what the queries mean: `spec_hits` tells at which
/// parameters the object's surface meets a ray, and `spec_bound` is the
/// box the object promises to stay inside. Implementations outside this
/// crate are trusted to meet these contracts.
pub trait Hittable: Sized + Send + Sync {
    /// The object's surface meets ray `r` at parameter `tn / td`. The
    /// default says the object hits nothing; implementations outside this
    /// crate are modeled by it unless they are verified themselves.
    open spec fn spec_hits(&self, r: Ray, tn: int, td: int) -> bool {
        false
    }

    /// The box this object promises to stay inside.
    open spec fn spec_bound(&self) -> AABB {
        spec_empty()
    }

    /// Implementation-specific well-formedness, carried through queries.
    open spec fn wf(&self) -> bool {
        true
    }

    /// The closest hit with parameter in `[t_min, t_max]`, if any.
    fn hit(&self, r: &Ray, t_min: Rat, t_max: Rat) -> (res: Option<HitRecord>)
        requires
            self.wf(),
            r.wf(),
            t_min.wf(),
            t_max.wf(),
            t_min.spec_pos(),
        ensures
            (res matches Some(rec) ==> rec.t.wf() && t_min.spec_le(rec.t) && rec.t.spec_le(t_max)
                && self.spec_hits(*r, rec.t.num as int, rec.t.den as int) && forall|
                tn: int,
                td: int,
            |
                td > 0 && rat_le(t_min.num as int, t_min.den as int, tn, td) && rat_lt(
                    tn,
                    td,
                    rec.t.num as int,
                    rec.t.den as int,
                ) ==> !#[trigger] self.spec_hits(*r, tn, td)),
            (res is None ==> forall|tn: int, td: int|
                td > 0 && rat_le(t_min.num as int, t_min.den as int, tn, td) && rat_le(
                    tn,
                    td,
                    t_max.num as int,
                    t_max.den as int,
                ) ==> !#[trigger] self.spec_hits(*r, tn, td)),
    ;

    /// Whether any hit has parameter in `[t_min, t_max]`.
    fn shadow_hit(&self, r: &Ray, t_min: Rat, t_max: Rat) -> (res: bool)
        requires
            self.wf(),
            r.wf(),
            t_min.wf(),
            t_max.wf(),
            t_min.spec_pos(),
        ensures
            res == exists|tn: int, td: int|
                td > 0 && rat_le(t_min.num as int, t_min.den as int, tn, td) && rat_le(
                    tn,
                    td,
                    t_max.num as int,
                    t_max.den as int,
                ) && #[trigger] self.spec_hits(*r, tn, td),
    ;

    /// The object's bound.
    fn bound(&self) -> (b: AABB)
        requires
            self.wf(),
        ensures
            b == self.spec_bound(),
    ;
}

/// Some object of the sequence meets the ray at parameter `tn / td`.
pub open spec fn set_hits<H: Hittable>(objects: Seq<H>, r: Ray, tn: int, td: int) -> bool {
    exists|i: int| 0 <= i < objects.len() && #[trigger] objects[i].spec_hits(r, tn, td)
}

/// No object of the sequence has a hit with parameter in `[lo, hi]`.
pub open spec fn no_set_hit_in<H: Hittable>(objects: Seq<H>, r: Ray, lo: Rat, hi: Rat) -> bool {
    forall|tn: int, td: int|
        td > 0 && rat_le(lo.num as int, lo.den as int, tn, td) && rat_le(
            tn,
            td,
            hi.num as int,
            hi.den as int,
        ) ==> !#[trigger] set_hits(objects, r, tn, td)
}

/// Some object of the sequence has a hit with parameter in `[lo, hi]`.
pub open spec fn any_set_hit_in<H: Hittable>(objects: Seq<H>, r: Ray, lo: Rat, hi: Rat) -> bool {
    exists|tn: int, td: int|
        td > 0 && rat_le(lo.num as int, lo.den as int, tn, td) && rat_le(
            tn,
            td,
            hi.num as int,
            hi.den as int,
        ) && #[trigger] set_hits(objects, r, tn, td)
}

/// `t` is the parameter of the closest hit of any object of the sequence
/// within `[t_min, t_max]`: it is a hit, it is in range, and no hit comes
/// strictly before it in range.
pub open spec fn is_closest_hit<H: Hittable>(
    objects: Seq<H>,
    r: Ray,
    t_min: Rat,
    t_max: Rat,
    t: Rat,
) -> bool {
    &&& t.wf()
    &&& t_min.spec_le(t)
    &&& t.spec_le(t_max)
    &&& set_hits(objects, r, t.num as int, t.den as int)
    &&& forall|tn: int, td: int|
        td > 0 && rat_le(t_min.num as int, t_min.den as int, tn, td) && rat_lt(
            tn,
            td,
            t.num as int,
            t.den as int,
        ) ==> !#[trigger] set_hits(objects, r, tn, td)
}

/// Two closest-hit parameters for the same query are the same rational:
/// the nearest hit of a scene is unique, whichever index answers it.
pub proof fn lemma_closest_hit_unique<H: Hittable>(
    objects: Seq<H>,
    r: Ray,
    t_min: Rat,
    t_max: Rat,
    t1: Rat,
    t2: Rat,
)
    requires
        is_closest_hit(objects, r, t_min, t_max, t1),
        is_closest_hit(objects, r, t_min, t_max, t2),
    ensures
        t1.spec_eq(t2),
{
    if t1.spec_lt(t2) {
        assert(!set_hits(objects, r, t1.num as int, t1.den as int));
    } else if t2.spec_lt(t1) {
        assert(!set_hits(objects, r, t2.num as int, t2.den as int));
    }
}

/// The kd-tree is a drop-in replacement for the linear scan: for one and
/// the same object sequence, any two nearest-hit answers that meet the
/// closest-hit contract — as the kd-tree's `hit` and the plain list's
/// `hit` both do — agree: both miss, or both hit at the same parameter.
pub proof fn lemma_tree_matches_linear_scan<H: Hittable>(
    objects: Seq<H>,
    r: Ray,
    t_min: Rat,
    t_max: Rat,
    tree_t: Option<Rat>,
    scan_t: Option<Rat>,
)
    requires
        (match tree_t {
            Some(t) => is_closest_hit(objects, r, t_min, t_max, t),
            None => no_set_hit_in(objects, r, t_min, t_max),
        }),
        (match scan_t {
            Some(t) => is_closest_hit(objects, r, t_min, t_max, t),
            None => no_set_hit_in(objects, r, t_min, t_max),
        }),
    ensures
        match (tree_t, scan_t) {
            (Some(a), Some(b)) => a.spec_eq(b),
            (None, None) => true,
            _ => false,
        },
{
    match (tree_t, scan_t) {
        (Some(a), Some(b)) => {
            lemma_closest_hit_unique(objects, r, t_min, t_max, a, b);
        },
        (Some(a), None) => {
            assert(!set_hits(objects, r, a.num as int, a.den as int));
        },
        (None, Some(b)) => {
            assert(!set_hits(objects, r, b.num as int, b.den as int));
        },
        (None, None) => {},
    }
}

/// Every object's hits lie inside its own bound: what `bound` returns
/// really bounds the object. This is the one promise the tree needs from
/// the objects it indexes beyond their query contracts.
pub open spec fn hits_in_bounds<H: Hittable>(objects: Seq<H>) -> bool {
    forall|i: int, r: Ray, tn: int, td: int|
        0 <= i < objects.len() && td > 0 && #[trigger] objects[i].spec_hits(r, tn, td)
            ==> crate::ray::on_ray_in_box(r, tn, td, objects[i].spec_bound())
}

/// All well-formed bounds of the sequence's objects.
pub open spec fn all_wf<H: Hittable>(objects: Seq<H>) -> bool {
    forall|i: int| 0 <= i < objects.len() ==> (#[trigger] objects[i]).wf()
}

/// The bounds of the sequence's objects, in order.
pub open spec fn bounds_of<H: Hittable>(objects: Seq<H>) -> Seq<AABB> {
    objects.map(|i: int, h: H| h.spec_bound())
}

/// The running merge of all object bounds: the scene bound.
pub open spec fn scene_bound<H: Hittable>(objects: Seq<H>) -> AABB
    decreases objects.len(),
{
    if objects.len() == 0 {
        spec_empty()
    } else {
        spec_merge(scene_bound(objects.drop_last()), objects.last().spec_bound())
    }
}

/// The plain, unindexed object collection: every query is a linear scan
/// over all objects.
pub struct HittableList<H: Hittable> {
    pub objects: Vec<H>,
}

impl<H: Hittable> HittableList<H> {
    pub fn new() -> (l: HittableList<H>)
        ensures
            l.objects@.len() == 0,
    {
        HittableList { objects: Vec::new() }
    }

    pub fn add(&mut self, object: H)
        ensures
            final(self).objects@ == old(self).objects@.push(object),
    {
        self.objects.push(object);
    }

    pub fn extend(&mut self, objects: Vec<H>)
        ensures
            final(self).objects@ == old(self).objects@ + objects@,
    {
        let mut rest = objects;
        self.objects.append(&mut rest);
    }
}

impl<H: Hittable> Default for HittableList<H> {
    fn default() -> (l: HittableList<H>)
        ensures
            l.objects@.len() == 0,
    {
        HittableList::new()
    }
}

/// Linear nearest-hit scan: try every object, shrinking the upper bound of
/// the range to the closest hit found so far.
pub fn hit_scan<H: Hittable>(hittables: &Vec<H>, r: &Ray, t_min: Rat, t_max: Rat) -> (res: Option<
    HitRecord,
>)
    requires
        all_wf(hittables@),
        r.wf(),
        t_min.wf(),
        t_max.wf(),
        t_min.spec_pos(),
    ensures
        (res matches Some(rec) ==> is_closest_hit(hittables@, *r, t_min, t_max, rec.t)),
        (res is None ==> no_set_hit_in(hittables@, *r, t_min, t_max)),
{
    let ghost all = hittables@;
    let mut tmp_record: Option<HitRecord> = None;
    let mut closest = t_max;
    let mut i: usize = 0;
    while i < hittables.len()
        invariant
            all == hittables@,
            all_wf(all),
            r.wf(),
            t_min.wf(),
            t_max.wf(),
            t_min.spec_pos(),
            i <= all.len(),
            closest.wf(),
            tmp_record is None ==> closest == t_max,
            tmp_record matches Some(rec) ==> rec.t == closest && t_min.spec_le(closest)
                && closest.spec_le(t_max) && set_hits(all, *r, closest.num as int, closest.den as int),
            forall|tn: int, td: int|
                td > 0 && rat_le(t_min.num as int, t_min.den as int, tn, td) && rat_lt(
                    tn,
                    td,
                    closest.num as int,
                    closest.den as int,
                ) ==> !#[trigger] set_hits(all.subrange(0, i as int), *r, tn, td),
            tmp_record is None ==> forall|tn: int, td: int|
                td > 0 && rat_le(t_min.num as int, t_min.den as int, tn, td) && rat_le(
                    tn,
                    td,
                    closest.num as int,
                    closest.den as int,
                ) ==> !#[trigger] set_hits(all.subrange(0, i as int), *r, tn, td),
        decreases all.len() - i,
    {
        let ghost pre = all.subrange(0, i as int);
        let rec = hittables[i].hit(r, t_min, closest);
        proof {
            assert(all.subrange(0, i as int + 1) =~= pre.push(all[i as int]));
        }
        match rec {
            Some(hit) => {
                proof {
                    let post = all.subrange(0, i as int + 1);
                    assert(all[i as int].spec_hits(*r, hit.t.num as int, hit.t.den as int));
                    assert(set_hits(all, *r, hit.t.num as int, hit.t.den as int));
                    assert forall|tn: int, td: int|
                        td > 0 && rat_le(t_min.num as int, t_min.den as int, tn, td) && rat_lt(
                            tn,
                            td,
                            hit.t.num as int,
                            hit.t.den as int,
                        ) implies !#[trigger] set_hits(post, *r, tn, td) by {
                        crate::math::lemma_rat_lt_le_trans(
                            tn,
                            td,
                            hit.t.num as int,
                            hit.t.den as int,
                            closest.num as int,
                            closest.den as int,
                        );
                        assert(!set_hits(pre, *r, tn, td));
                        if set_hits(post, *r, tn, td) {
                            let j = choose|j: int|
                                0 <= j < post.len() && #[trigger] post[j].spec_hits(*r, tn, td);
                            if j < i {
                                assert(pre[j].spec_hits(*r, tn, td));
                            }
                        }
                    }
                    crate::math::lemma_rat_le_trans(
                        hit.t.num as int,
                        hit.t.den as int,
                        closest.num as int,
                        closest.den as int,
                        t_max.num as int,
                        t_max.den as int,
                    );
                }
                closest = hit.t;
                tmp_record = Some(hit);
            },
            None => {
                proof {
                    let post = all.subrange(0, i as int + 1);
                    assert forall|tn: int, td: int|
                        td > 0 && rat_le(t_min.num as int, t_min.den as int, tn, td) && rat_lt(
                            tn,
                            td,
                            closest.num as int,
                            closest.den as int,
                        ) implies !#[trigger] set_hits(post, *r, tn, td) by {
                        assert(!set_hits(pre, *r, tn, td));
                        if set_hits(post, *r, tn, td) {
                            let j = choose|j: int|
                                0 <= j < post.len() && #[trigger] post[j].spec_hits(*r, tn, td);
                            if j < i {
                                assert(pre[j].spec_hits(*r, tn, td));
                            } else {
                                assert(all[i as int].spec_hits(*r, tn, td));
                            }
                        }
                    }
                    if tmp_record is None {
                        assert forall|tn: int, td: int|
                            td > 0 && rat_le(t_min.num as int, t_min.den as int, tn, td) && rat_le(
                                tn,
                                td,
                                closest.num as int,
                                closest.den as int,
                            ) implies !#[trigger] set_hits(post, *r, tn, td) by {
                            assert(!set_hits(pre, *r, tn, td));
                            if set_hits(post, *r, tn, td) {
                                let j = choose|j: int|
                                    0 <= j < post.len() && #[trigger] post[j].spec_hits(
                                        *r,
                                        tn,
                                        td,
                                    );
                                if j < i {
                                    assert(pre[j].spec_hits(*r, tn, td));
                                } else {
                                    assert(all[i as int].spec_hits(*r, tn, td));
                                }
                            }
                        }
                    }
                }
            },
        }
        i = i + 1;
    }
    proof {
        assert(all.subrange(0, all.len() as int) =~= all);
    }
    tmp_record
}

/// Linear any-hit scan: return as soon as any object reports a hit.
pub fn shadow_hit_scan<H: Hittable>(hittables: &Vec<H>, r: &Ray, t_min: Rat, t_max: Rat) -> (res:
    bool)
    requires
        all_wf(hittables@),
        r.wf(),
        t_min.wf(),
        t_max.wf(),
        t_min.spec_pos(),
    ensures
        res == any_set_hit_in(hittables@, *r, t_min, t_max),
{
    let ghost all = hittables@;
    let mut i: usize = 0;
    while i < hittables.len()
        invariant
            all == hittables@,
            all_wf(all),
            r.wf(),
            t_min.wf(),
            t_max.wf(),
            t_min.spec_pos(),
            i <= all.len(),
            forall|tn: int, td: int|
                td > 0 && rat_le(t_min.num as int, t_min.den as int, tn, td) && rat_le(
                    tn,
                    td,
                    t_max.num as int,
                    t_max.den as int,
                ) ==> !#[trigger] set_hits(all.subrange(0, i as int), *r, tn, td),
        decreases all.len() - i,
    {
        let ghost pre = all.subrange(0, i as int);
        if hittables[i].shadow_hit(r, t_min, t_max) {
            proof {
                let (tn, td) = choose|tn: int, td: int|
                    td > 0 && rat_le(t_min.num as int, t_min.den as int, tn, td) && rat_le(
                        tn,
                        td,
                        t_max.num as int,
                        t_max.den as int,
                    ) && #[trigger] all[i as int].spec_hits(*r, tn, td);
                assert(set_hits(all, *r, tn, td));
            }
            return true;
        }
        proof {
            assert(all.subrange(0, i as int + 1) =~= pre.push(all[i as int]));
            assert forall|tn: int, td: int|
                td > 0 && rat_le(t_min.num as int, t_min.den as int, tn, td) && rat_le(
                    tn,
                    td,
                    t_max.num as int,
                    t_max.den as int,
                ) implies !#[trigger] set_hits(all.subrange(0, i as int + 1), *r, tn, td) by {
                let post = all.subrange(0, i as int + 1);
                assert(!set_hits(pre, *r, tn, td));
                if set_hits(post, *r, tn, td) {
                    let j = choose|j: int|
                        0 <= j < post.len() && #[trigger] post[j].spec_hits(*r, tn, td);
                    if j < i {
                        assert(pre[j].spec_hits(*r, tn, td));
                    } else {
                        assert(all[i as int].spec_hits(*r, tn, td));
                    }
                }
            }
        }
        i = i + 1;
    }
    proof {
        assert(all.subrange(0, all.len() as int) =~= all);
        if any_set_hit_in(all, *r, t_min, t_max) {
            let (tn, td) = choose|tn: int, td: int|
                td > 0 && rat_le(t_min.num as int, t_min.den as int, tn, td) && rat_le(
                    tn,
                    td,
                    t_max.num as int,
                    t_max.den as int,
                ) && #[trigger] set_hits(all, *r, tn, td);
            assert(!set_hits(all, *r, tn, td));
        }
    }
    false
}

impl<H: Hittable> Hittable for HittableList<H> {
    /// The list hits wherever any of its objects hits.
    open spec fn spec_hits(&self, r: Ray, tn: int, td: int) -> bool {
        set_hits(self.objects@, r, tn, td)
    }

    /// The list's bound is the merge of its objects' bounds.
    open spec fn spec_bound(&self) -> AABB {
        scene_bound(self.objects@)
    }

    open spec fn wf(&self) -> bool {
        all_wf(self.objects@)
    }

    /// Nearest hit by the plain linear scan: the same answer, pinned by
    /// the same closest-hit predicate, as the kd-tree gives over the same
    /// objects.
    fn hit(&self, r: &Ray, t_min: Rat, t_max: Rat) -> (res: Option<HitRecord>)
        ensures
            (res matches Some(rec) ==> is_closest_hit(self.objects@, *r, t_min, t_max, rec.t)),
            (res is None ==> no_set_hit_in(self.objects@, *r, t_min, t_max)),
    {
        let res = hit_scan(&self.objects, r, t_min, t_max);
        proof {
            match res {
                Some(rec) => {
                    assert(is_closest_hit(self.objects@, *r, t_min, t_max, rec.t));
                },
                None => {},
            }
        }
        res
    }

    /// Any hit by the plain linear scan: the same answer as the kd-tree
    /// gives over the same objects.
    fn shadow_hit(&self, r: &Ray, t_min: Rat, t_max: Rat) -> (res: bool)
        ensures
            res == any_set_hit_in(self.objects@, *r, t_min, t_max),
    {
        let res = shadow_hit_scan(&self.objects, r, t_min, t_max);
        proof {
            if res {
                let (tn, td) = choose|tn: int, td: int|
                    td > 0 && rat_le(t_min.num as int, t_min.den as int, tn, td) && rat_le(
                        tn,
                        td,
                        t_max.num as int,
                        t_max.den as int,
                    ) && #[trigger] set_hits(self.objects@, *r, tn, td);
                assert(self.spec_hits(*r, tn, td));
            } else {
                if exists|tn: int, td: int|
                    td > 0 && rat_le(t_min.num as int, t_min.den as int, tn, td) && rat_le(
                        tn,
                        td,
                        t_max.num as int,
                        t_max.den as int,
                    ) && #[trigger] self.spec_hits(*r, tn, td) {
                    let (tn, td) = choose|tn: int, td: int|
                        td > 0 && rat_le(t_min.num as int, t_min.den as int, tn, td) && rat_le(
                            tn,
                            td,
                            t_max.num as int,
                            t_max.den as int,
                        ) && #[trigger] self.spec_hits(*r, tn, td);
                    assert(set_hits(self.objects@, *r, tn, td));
                    assert(any_set_hit_in(self.objects@, *r, t_min, t_max));
                }
            }
        }
        res
    }

    fn bound(&self) -> (b: AABB) {
        let mut aabb = AABB::empty();
        let mut i: usize = 0;
        while i < self.objects.len()
            invariant
                all_wf(self.objects@),
                i <= self.objects@.len(),
                aabb == scene_bound(self.objects@.subrange(0, i as int)),
            decreases self.objects@.len() - i,
        {
            proof {
                assert(self.objects@.subrange(0, 0).len() == 0);
            }
            let bb = self.objects[i].bound();
            proof {
                let pre = self.objects@.subrange(0, i as int);
                let post = self.objects@.subrange(0, i as int + 1);
                assert(post.drop_last() =~= pre);
                assert(post.last() == self.objects@[i as int]);
            }
            aabb.merge(&bb);
            i = i + 1;
        }
        proof {
            assert(self.objects@.subrange(0, self.objects@.len() as int) =~= self.objects@);
        }
        aabb
    }
}

} // verus!
