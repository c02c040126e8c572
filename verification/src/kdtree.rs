use vstd::prelude::*;
use crate::aabb::{AABB, spec_merge};
use crate::math::spec_with_at;
use crate::candidate::{
    Candidate,
    Candidates,
    Side,
    cand_le,
    cand_matches,
    cands_match,
    has_x_begin,
    in_shapes,
    shapes_of,
    sort_candidates,
    sorted_cands,
    x_begin_closed,
};
use crate::plane::{Dimension, Plane};
use crate::ray::{Ray, on_ray_in_box, ray_hits_box};
use crate::math::Rat;
use crate::hittable::{
    HitRecord,
    Hittable,
    HittableList,
    all_wf,
    any_set_hit_in,
    bounds_of,
    hits_in_bounds,
    is_closest_hit,
    no_set_hit_in,
    scene_bound,
    set_hits,
};

verus! {

// Cost model, after "On building fast kd-Trees for Ray Tracing, and on
// doing that in O(N log N)". Costs are kept as exact integers scaled by
// five times the surface of the space being split, so the empty-cut bonus
// of one fifth needs no fractions: a discounted cost weighs in at four
// fifths of the scale instead of five.
/// Cost of one tree traversal step, unscaled.
pub const K_T: i128 = 15;

/// Cost of one object intersection, unscaled.
pub const K_I: i128 = 20;

/// One node of the flat tree arena: a leaf holding object indices, or an
/// interior node holding its two children's sub-boxes and arena indices.
/// Children always sit at higher arena indices than their parent.
#[derive(Debug)]
pub enum KDTreeNode {
    Leaf { shapes: Vec<usize> },
    Node { l_child: usize, l_space: AABB, r_child: usize, r_space: AABB },
}

/// The plane's position clamped into the box's face interval on the
/// plane's axis.
pub open spec fn spec_clamp_pos(space: AABB, plane: Plane) -> int {
    let p = plane.pos as int;
    let lo = space.min_at(plane.dimension);
    let hi = space.max_at(plane.dimension);
    if p < lo {
        lo
    } else if p > hi {
        hi
    } else {
        p
    }
}

/// The half of `space` on the lower side of the plane.
pub open spec fn spec_split_left(space: AABB, plane: Plane) -> AABB {
    AABB { min: space.min, max: spec_with_at(space.max, plane.dimension, spec_clamp_pos(space, plane)) }
}

/// The half of `space` on the upper side of the plane.
pub open spec fn spec_split_right(space: AABB, plane: Plane) -> AABB {
    AABB { min: spec_with_at(space.min, plane.dimension, spec_clamp_pos(space, plane)), max: space.max }
}

/// Cut `space` at `plane` into its two halves. The plane position is
/// clamped into the box so that a non-cutting plane yields one empty-extent
/// half and the box itself.
pub fn split_space(space: &AABB, plane: &Plane) -> (r: (AABB, AABB))
    ensures
        r.0 == spec_split_left(*space, *plane),
        r.1 == spec_split_right(*space, *plane),
{
    let mut left = *space;
    let mut right = *space;
    let lo = space.min.at(plane.dimension);
    let hi = space.max.at(plane.dimension);
    let pos = if plane.pos < lo {
        lo
    } else if plane.pos > hi {
        hi
    } else {
        plane.pos
    };
    left.max = left.max.with_at(plane.dimension, pos);
    right.min = right.min.with_at(plane.dimension, pos);
    proof {
        assert(left.max =~= spec_with_at(space.max, plane.dimension, spec_clamp_pos(*space, *plane)))
            by {
            match plane.dimension {
                Dimension::X => {},
                Dimension::Y => {},
                Dimension::Z => {},
            }
        }
        assert(right.min =~= spec_with_at(space.min, plane.dimension, spec_clamp_pos(*space, *plane)))
            by {
            match plane.dimension {
                Dimension::X => {},
                Dimension::Y => {},
                Dimension::Z => {},
            }
        }
    }
    (left, right)
}

/// Splitting a box at a cutting plane yields two halves whose merge is
/// exactly the original box.
pub proof fn lemma_split_merge(space: AABB, plane: Plane)
    requires
        space.valid(),
        plane.spec_cutting(space),
    ensures
        spec_merge(spec_split_left(space, plane), spec_split_right(space, plane)) == space,
{
    let l = spec_split_left(space, plane);
    let r = spec_split_right(space, plane);
    assert(space.min.spec_at(plane.dimension) <= space.max.spec_at(plane.dimension));
    match plane.dimension {
        Dimension::X => {
            assert(spec_merge(l, r) =~= space);
        },
        Dimension::Y => {
            assert(spec_merge(l, r) =~= space);
        },
        Dimension::Z => {
            assert(spec_merge(l, r) =~= space);
        },
    }
}

/// Both halves of a valid box are valid, and each is contained in the box.
pub proof fn lemma_split_valid(space: AABB, plane: Plane)
    requires
        space.valid(),
    ensures
        spec_split_left(space, plane).valid(),
        spec_split_right(space, plane).valid(),
        crate::aabb::contains_box(space, spec_split_left(space, plane)),
        crate::aabb::contains_box(space, spec_split_right(space, plane)),
{
    let l = spec_split_left(space, plane);
    let r = spec_split_right(space, plane);
    assert(space.min.spec_at(plane.dimension) <= space.max.spec_at(plane.dimension));
    assert forall|d: Dimension|
        l.min.spec_at(d) <= l.max.spec_at(d) && r.min.spec_at(d) <= r.max.spec_at(d)
            && space.min.spec_at(d) <= l.min.spec_at(d) && l.max.spec_at(d) <= space.max.spec_at(d)
            && space.min.spec_at(d) <= r.min.spec_at(d) && r.max.spec_at(d) <= space.max.spec_at(
            d,
        ) by {
        assert(space.min.spec_at(d) <= space.max.spec_at(d));
        match plane.dimension {
            Dimension::X => {},
            Dimension::Y => {},
            Dimension::Z => {},
        }
    }
    match plane.dimension {
        Dimension::X => {},
        Dimension::Y => {},
        Dimension::Z => {},
    }
}

/// The sum of the three extents, the builder's termination measure.
pub open spec fn extent_sum(space: AABB) -> int {
    space.extent(Dimension::X) + space.extent(Dimension::Y) + space.extent(Dimension::Z)
}

/// Splitting at a cutting plane strictly shrinks both halves' extent sums.
pub proof fn lemma_split_shrinks(space: AABB, plane: Plane)
    requires
        space.valid(),
        plane.spec_cutting(space),
    ensures
        extent_sum(spec_split_left(space, plane)) < extent_sum(space),
        extent_sum(spec_split_right(space, plane)) < extent_sum(space),
        extent_sum(spec_split_left(space, plane)) >= 0,
        extent_sum(spec_split_right(space, plane)) >= 0,
{
    lemma_split_valid(space, plane);
    let l = spec_split_left(space, plane);
    let r = spec_split_right(space, plane);
    assert(l.min.spec_at(Dimension::X) <= l.max.spec_at(Dimension::X));
    assert(l.min.spec_at(Dimension::Y) <= l.max.spec_at(Dimension::Y));
    assert(l.min.spec_at(Dimension::Z) <= l.max.spec_at(Dimension::Z));
    assert(r.min.spec_at(Dimension::X) <= r.max.spec_at(Dimension::X));
    assert(r.min.spec_at(Dimension::Y) <= r.max.spec_at(Dimension::Y));
    assert(r.min.spec_at(Dimension::Z) <= r.max.spec_at(Dimension::Z));
    match plane.dimension {
        Dimension::X => {},
        Dimension::Y => {},
        Dimension::Z => {},
    }
}

/// The exact scaled cost of splitting `space` at `plane` with `n_left` and
/// `n_right` objects on the two sides; `None` is infinite cost: the plane
/// does not cut the space, or the space has zero surface (a degenerate box,
/// where the surface ratio is undefined and the split must never win).
pub open spec fn spec_cost(plane: Plane, space: AABB, n_left: int, n_right: int) -> Option<int> {
    if !plane.spec_cutting(space) || space.spec_surface() == 0 {
        None
    } else {
        let base = K_T * space.spec_surface() + K_I * (n_left * spec_split_left(
            space,
            plane,
        ).spec_surface() + n_right * spec_split_right(space, plane).spec_surface());
        if n_left == 0 || n_right == 0 {
            Some(4 * base)
        } else {
            Some(5 * base)
        }
    }
}

/// No plane cuts the empty box, so splitting it always costs infinitely
/// much and it is never selected as a winning split.
pub proof fn lemma_empty_never_split(plane: Plane, n_left: int, n_right: int)
    ensures
        spec_cost(plane, crate::aabb::spec_empty(), n_left, n_right) is None,
{
    assert(!plane.spec_cutting(crate::aabb::spec_empty()));
}

/// Strict order on optional costs, `None` standing for infinity.
pub open spec fn cost_lt(a: Option<int>, b: Option<int>) -> bool {
    match a {
        Option::None => false,
        Option::Some(av) => match b {
            Option::None => true,
            Option::Some(bv) => av < bv,
        },
    }
}

proof fn lemma_cost_products_bounded(n_left: int, n_right: int, ls: int, rs: int, ss: int)
    requires
        0 <= n_left < 0x10000000000000000,
        0 <= n_right < 0x10000000000000000,
        0 <= ls <= 0x200000000000,
        0 <= rs <= 0x200000000000,
        0 <= ss <= 0x200000000000,
    ensures
        0 <= n_left * ls <= 0x2000000000000000000000000000,
        0 <= n_right * rs <= 0x2000000000000000000000000000,
        0 <= K_T * ss + K_I * (n_left * ls + n_right * rs) < 0x200000000000000000000000000000,
{
    assert(K_T == 15 && K_I == 20);
    assert(0 <= n_left * ls <= 0x2000000000000000000000000000 && 0 <= n_right * rs
        <= 0x2000000000000000000000000000) by (nonlinear_arith)
        requires
            0 <= n_left < 0x10000000000000000,
            0 <= n_right < 0x10000000000000000,
            0 <= ls <= 0x200000000000,
            0 <= rs <= 0x200000000000,
    ;
}

/// Surface-area-heuristic cost of one candidate plane, exact.
pub fn cost(plane: &Plane, space: &AABB, n_left: usize, n_right: usize) -> (c: Option<i128>)
    requires
        space.valid(),
    ensures
        c is Some <==> spec_cost(*plane, *space, n_left as int, n_right as int) is Some,
        c matches Some(v) ==> spec_cost(*plane, *space, n_left as int, n_right as int)
            == Some(v as int),
{
    // A plane that does not cut the space must never be chosen
    if !plane.is_cutting(space) {
        return None;
    }
    let space_surface = space.surface();
    // A degenerate space gives an undefined surface ratio: infinite cost
    if space_surface == 0 {
        return None;
    }
    let (space_left, space_right) = split_space(space, plane);
    proof {
        lemma_split_valid(*space, *plane);
    }
    let left_surface = space_left.surface();
    let right_surface = space_right.surface();
    proof {
        lemma_cost_products_bounded(
            n_left as int,
            n_right as int,
            left_surface as int,
            right_surface as int,
            space_surface as int,
        );
    }
    let base: i128 = K_T * (space_surface as i128) + K_I * ((n_left as i128)
        * (left_surface as i128) + (n_right as i128) * (right_surface as i128));
    if n_left == 0 || n_right == 0 {
        Some(4 * base)
    } else {
        Some(5 * base)
    }
}

/// Number of begin events on axis `d` among the first `i` events.
pub open spec fn count_begins(cands: Seq<Candidate>, i: int, d: Dimension) -> int
    decreases i,
{
    if i <= 0 {
        0
    } else {
        count_begins(cands, i - 1, d) + if cands[i - 1].start && cands[i - 1].plane.dimension
            == d {
            1int
        } else {
            0int
        }
    }
}

/// Number of end events on axis `d` among the first `i` events.
pub open spec fn count_ends(cands: Seq<Candidate>, i: int, d: Dimension) -> int
    decreases i,
{
    if i <= 0 {
        0
    } else {
        count_ends(cands, i - 1, d) + if !cands[i - 1].start && cands[i - 1].plane.dimension
            == d {
            1int
        } else {
            0int
        }
    }
}

/// Objects counted entirely to the left of the plane of event `i`: those
/// whose begin event on that axis came strictly before `i`.
pub open spec fn sweep_n_left(cands: Seq<Candidate>, i: int) -> int {
    count_begins(cands, i, cands[i].plane.dimension)
}

/// Objects counted to the right of the plane of event `i`: the running
/// total less the end events on that axis up to and including `i`. The
/// counter saturates at zero; with a consistent event list (one begin and
/// one end per object and axis, and `n` the number of objects) it never
/// reaches zero early.
pub open spec fn sweep_n_right(cands: Seq<Candidate>, i: int, n: int) -> int {
    let e = n - count_ends(cands, i + 1, cands[i].plane.dimension);
    if e < 0 {
        0
    } else {
        e
    }
}

/// The objects whose begin event of axis `d` lies among the first `i`
/// events, as integers.
pub open spec fn begin_shapes(cands: Seq<Candidate>, i: int, d: Dimension) -> Set<int> {
    Set::new(
        |v: int|
            exists|j: int|
                0 <= j < i && (#[trigger] cands[j]).start && cands[j].plane.dimension == d && cands[
                    j
                ].shape as int == v,
    )
}

/// With at most one begin per object and axis, the sweep's left counter
/// counts distinct objects.
proof fn lemma_count_begins_card(cands: Seq<Candidate>, i: int, d: Dimension)
    requires
        crate::candidate::events_unique(cands),
        0 <= i <= cands.len(),
    ensures
        begin_shapes(cands, i, d).finite(),
        count_begins(cands, i, d) == begin_shapes(cands, i, d).len(),
    decreases i,
{
    if i == 0 {
        assert(begin_shapes(cands, 0, d) =~= Set::<int>::empty());
    } else {
        lemma_count_begins_card(cands, i - 1, d);
        let prev = begin_shapes(cands, i - 1, d);
        let cur = begin_shapes(cands, i, d);
        if cands[i - 1].start && cands[i - 1].plane.dimension == d {
            let x = cands[i - 1].shape as int;
            assert(!prev.contains(x)) by {
                if prev.contains(x) {
                    let j = choose|j: int|
                        0 <= j < i - 1 && (#[trigger] cands[j]).start && cands[j].plane.dimension
                            == d && cands[j].shape as int == x;
                    assert(!crate::candidate::same_event_key(cands[j], cands[i - 1]));
                }
            }
            assert(cur =~= prev.insert(x)) by {
                assert forall|v: int| cur.contains(v) implies prev.insert(x).contains(v) by {
                    let j = choose|j: int|
                        0 <= j < i && (#[trigger] cands[j]).start && cands[j].plane.dimension == d
                            && cands[j].shape as int == v;
                    if j < i - 1 {
                        assert(prev.contains(v));
                    }
                }
                assert forall|v: int| prev.insert(x).contains(v) implies cur.contains(v) by {
                    if prev.contains(v) {
                        let j = choose|j: int|
                            0 <= j < i - 1 && (#[trigger] cands[j]).start && cands[j].plane.dimension
                                == d && cands[j].shape as int == v;
                    }
                }
            }
        } else {
            assert(cur =~= prev) by {
                assert forall|v: int| cur.contains(v) implies prev.contains(v) by {
                    let j = choose|j: int|
                        0 <= j < i && (#[trigger] cands[j]).start && cands[j].plane.dimension == d
                            && cands[j].shape as int == v;
                    assert(j < i - 1);
                }
                assert forall|v: int| prev.contains(v) implies cur.contains(v) by {
                    let j = choose|j: int|
                        0 <= j < i - 1 && (#[trigger] cands[j]).start && cands[j].plane.dimension
                            == d && cands[j].shape as int == v;
                }
            }
        }
    }
}

/// The sweep cost of the plane of event `i`.
pub open spec fn sweep_cost_at(cands: Seq<Candidate>, i: int, space: AABB, n: int) -> Option<
    int,
> {
    spec_cost(cands[i].plane, space, sweep_n_left(cands, i), sweep_n_right(cands, i, n))
}

/// The machine cost as a mathematical optional cost.
pub open spec fn opt_cost_view(c: Option<i128>) -> Option<int> {
    match c {
        Option::None => Option::None,
        Option::Some(v) => Option::Some(v as int),
    }
}

/// One sweep over the sorted event list: maintain per-axis counts of
/// objects entirely left and right of the running plane, evaluate the
/// surface-area-heuristic cost of every candidate plane, and return the
/// cost, event index and counts of the first cheapest candidate. An end
/// event leaves the right count before its plane is priced; a begin event
/// joins the left count only after its plane is priced.
pub fn partition(n: usize, space: &AABB, candidates: &Candidates) -> (r: (
    Option<i128>,
    usize,
    usize,
    usize,
))
    requires
        space.valid(),
    ensures
        forall|j: int|
            0 <= j < candidates@.len() ==> !cost_lt(
                #[trigger] sweep_cost_at(candidates@, j, *space, n as int),
                opt_cost_view(r.0),
            ),
        r.0 matches Some(c) ==> r.1 < candidates@.len() && sweep_cost_at(
            candidates@,
            r.1 as int,
            *space,
            n as int,
        ) == Some(c as int) && (forall|j: int|
            0 <= j < r.1 ==> cost_lt(
                Some(c as int),
                #[trigger] sweep_cost_at(candidates@, j, *space, n as int),
            )) && r.2 == sweep_n_left(candidates@, r.1 as int) && r.3 == sweep_n_right(
            candidates@,
            r.1 as int,
            n as int,
        ),
        r.0 is None ==> r.1 == 0 && r.2 == 0 && r.3 == n,
        // with at most one begin per object and axis, and every object
        // index below `n`, the left count cannot exceed `n`
        (crate::candidate::events_unique(candidates@) && (forall|j: int|
            0 <= j < candidates@.len() ==> ((#[trigger] candidates@[j]).shape as int) < n)
            ==> r.2 <= n),
{
    let ghost cs = candidates@;
    let mut best_cost: Option<i128> = None;
    let mut best_candidate_index: usize = 0;
    let mut n_l: Vec<usize> = vec![0, 0, 0];
    let mut n_r: Vec<usize> = vec![n, n, n];
    let mut best_n_l: usize = 0;
    let mut best_n_r: usize = n;
    let mut i: usize = 0;
    while i < candidates.len()
        invariant
            cs == candidates@,
            space.valid(),
            i <= cs.len(),
            n_l@.len() == 3,
            n_r@.len() == 3,
            n_l@[0] as int == count_begins(cs, i as int, Dimension::X),
            n_l@[1] as int == count_begins(cs, i as int, Dimension::Y),
            n_l@[2] as int == count_begins(cs, i as int, Dimension::Z),
            n_l@[0] <= i && n_l@[1] <= i && n_l@[2] <= i,
            n_r@[0] as int == clamp0(n as int - count_ends(cs, i as int, Dimension::X)),
            n_r@[1] as int == clamp0(n as int - count_ends(cs, i as int, Dimension::Y)),
            n_r@[2] as int == clamp0(n as int - count_ends(cs, i as int, Dimension::Z)),
            forall|j: int|
                0 <= j < i ==> !cost_lt(
                    #[trigger] sweep_cost_at(cs, j, *space, n as int),
                    opt_cost_view(best_cost),
                ),
            best_cost matches Some(c) ==> best_candidate_index < i && sweep_cost_at(
                cs,
                best_candidate_index as int,
                *space,
                n as int,
            ) == Some(c as int) && (forall|j: int|
                0 <= j < best_candidate_index ==> cost_lt(
                    Some(c as int),
                    #[trigger] sweep_cost_at(cs, j, *space, n as int),
                )) && best_n_l == sweep_n_left(cs, best_candidate_index as int) && best_n_r
                == sweep_n_right(cs, best_candidate_index as int, n as int),
            best_cost is None ==> best_candidate_index == 0 && best_n_l == 0 && best_n_r == n,
        decreases cs.len() - i,
    {
        let candidate = candidates[i];
        let dim_idx: usize = match candidate.dimension() {
            Dimension::X => 0,
            Dimension::Y => 1,
            Dimension::Z => 2,
        };
        if candidate.is_right() {
            if n_r[dim_idx] > 0 {
                let v = n_r[dim_idx] - 1;
                n_r[dim_idx] = v;
            }
        }
        let c = cost(&candidate.plane, space, n_l[dim_idx], n_r[dim_idx]);
        proof {
            assert(sweep_cost_at(cs, i as int, *space, n as int) == opt_cost_view(c));
        }
        let improved = match (&c, &best_cost) {
            (Option::Some(cv), Option::Some(bv)) => *cv < *bv,
            (Option::Some(_), Option::None) => true,
            (Option::None, _) => false,
        };
        if improved {
            best_cost = c;
            best_candidate_index = i;
            best_n_l = n_l[dim_idx];
            best_n_r = n_r[dim_idx];
        }
        if candidate.is_left() {
            let v = n_l[dim_idx] + 1;
            n_l[dim_idx] = v;
        }
        i = i + 1;
    }
    proof {
        if crate::candidate::events_unique(cs) && (forall|j: int|
            0 <= j < cs.len() ==> ((#[trigger] cs[j]).shape as int) < n) {
            match best_cost {
                Option::Some(_) => {
                    let d2 = cs[best_candidate_index as int].plane.dimension;
                    lemma_count_begins_card(cs, best_candidate_index as int, d2);
                    let bs = begin_shapes(cs, best_candidate_index as int, d2);
                    assert(bs.subset_of(vstd::set_lib::set_int_range(0, n as int))) by {
                        assert forall|v: int| bs.contains(v) implies vstd::set_lib::set_int_range(
                            0,
                            n as int,
                        ).contains(v) by {
                            let j = choose|j: int|
                                0 <= j < best_candidate_index && (#[trigger] cs[j]).start && cs[
                                    j
                                ].plane.dimension == d2 && cs[j].shape as int == v;
                        }
                    }
                    vstd::set_lib::lemma_int_range(0, n as int);
                    vstd::set_lib::lemma_len_subset(bs, vstd::set_lib::set_int_range(0, n as int));
                },
                Option::None => {},
            }
        }
    }
    (best_cost, best_candidate_index, best_n_l, best_n_r)
}

proof fn lemma_push_contains_usize(s: Seq<usize>, e: usize)
    ensures
        forall|x: usize| #[trigger] s.push(e).contains(x) <==> s.contains(x) || x == e,
{
    assert forall|x: usize| #[trigger] s.push(e).contains(x) implies s.contains(x) || x == e by {
        let k = choose|k: int| 0 <= k < s.push(e).len() && s.push(e)[k] == x;
        if k < s.len() {
            assert(s[k] == x);
        }
    }
    assert forall|x: usize| s.contains(x) || x == e implies #[trigger] s.push(e).contains(x) by {
        if s.contains(x) {
            let k = choose|k: int| 0 <= k < s.len() && s[k] == x;
            assert(s.push(e)[k] == x);
        } else {
            assert(s.push(e)[s.len() as int] == x);
        }
    }
}

proof fn lemma_threshold_bound(nb: int, surf: int)
    requires
        0 <= nb < 0x10000000000000000,
        0 <= surf <= 0x200000000000,
    ensures
        0 <= 100 * nb * surf <= 0x100000000000000000000000000000,
{
    assert(0 <= 100 * nb * surf <= 0x100000000000000000000000000000) by (nonlinear_arith)
        requires
            0 <= nb < 0x10000000000000000,
            0 <= surf <= 0x200000000000,
    ;
}

/// The candidate cost is no better than intersecting all `n` objects here
/// outright: infinite, or above `K_I * n` at the shared scale of five
/// times the surface of the space.
pub open spec fn cost_exceeds_leaf(c: Option<int>, space: AABB, n: int) -> bool {
    match c {
        Option::None => true,
        Option::Some(v) => v > 5 * K_I * n * space.spec_surface(),
    }
}

/// Event `i` carries the winning plane of the sweep: its cost is finite,
/// no candidate is cheaper, and every earlier candidate is strictly more
/// expensive.
pub open spec fn is_first_min_cost(cands: Seq<Candidate>, i: int, space: AABB, n: int) -> bool {
    &&& 0 <= i < cands.len()
    &&& sweep_cost_at(cands, i, space, n) is Some
    &&& forall|j: int|
        0 <= j < cands.len() ==> !cost_lt(
            #[trigger] sweep_cost_at(cands, j, space, n),
            sweep_cost_at(cands, i, space, n),
        )
    &&& forall|j: int|
        0 <= j < i ==> cost_lt(
            sweep_cost_at(cands, i, space, n),
            #[trigger] sweep_cost_at(cands, j, space, n),
        )
}

/// Build the subtree for `space` and its event list `candidates` at the end
/// of the arena, returning the subtree's depth. When no candidate plane
/// beats the cost of intersecting all `nb_shapes` objects here, a single
/// leaf is emitted, read off the x-axis begin events so that each object
/// appears once. Otherwise the space is split at the cheapest plane, the
/// events are classified and routed, and the two children are built, the
/// left immediately after the node and the right where the left ended.
pub fn build_tree(
    space: &AABB,
    candidates: Candidates,
    nb_shapes: usize,
    sides: &mut Vec<Side>,
    tree: &mut Vec<KDTreeNode>,
    Ghost(bounds): Ghost<Seq<AABB>>,
) -> (depth: usize)
    requires
        space.valid(),
        sorted_cands(candidates@),
        cands_match(candidates@, bounds),
        x_begin_closed(candidates@),
        crate::candidate::events_complete(candidates@),
        crate::candidate::events_unique(candidates@),
        old(sides)@.len() == bounds.len(),
    ensures
        final(sides)@.len() == old(sides)@.len(),
        final(tree)@.len() > old(tree)@.len(),
        final(tree)@.subrange(0, old(tree)@.len() as int) == old(tree)@,
        wf_from(
            final(tree)@,
            old(tree)@.len() as int,
            final(tree)@.len() as int,
            *space,
            bounds,
        ),
        objset(final(tree)@, old(tree)@.len() as int) == shapes_of(candidates@),
        // the stopping rule: a leaf is emitted exactly when no candidate
        // plane beats brute force over everything in this box
        (final(tree)@[old(tree)@.len() as int] is Leaf <==> forall|j: int|
            0 <= j < candidates@.len() ==> cost_exceeds_leaf(
                #[trigger] sweep_cost_at(candidates@, j, *space, nb_shapes as int),
                *space,
                nb_shapes as int,
            )),
        // an interior node splits this space at the winning plane: the
        // first candidate of minimal cost across the whole sweep
        (final(tree)@[old(tree)@.len() as int] matches KDTreeNode::Node {
            l_space,
            r_space,
            ..
        } ==> exists|bi: int|
            #[trigger] is_first_min_cost(candidates@, bi, *space, nb_shapes as int) && l_space
                == spec_split_left(*space, candidates@[bi].plane) && r_space == spec_split_right(
                *space,
                candidates@[bi].plane,
            )),
        depth as int == depth_of(final(tree)@, old(tree)@.len() as int),
        1 <= depth,
        depth as int <= extent_sum(*space) + 1,
    decreases extent_sum(*space),
{
    let ghost cs = candidates@;
    let ghost t0 = tree@;
    proof {
        assert(space.min.spec_at(Dimension::X) <= space.max.spec_at(Dimension::X));
        assert(space.min.spec_at(Dimension::Y) <= space.max.spec_at(Dimension::Y));
        assert(space.min.spec_at(Dimension::Z) <= space.max.spec_at(Dimension::Z));
    }
    let (cost_opt, best_index, n_l, n_r) = partition(nb_shapes, space, &candidates);
    // Split only when the best split beats brute force over everything in
    // this box: cost > K_I * nb_shapes, at the shared scale of five times
    // the surface of this box
    let make_leaf = match cost_opt {
        Option::None => true,
        Option::Some(c) => {
            let surf = space.surface();
            proof {
                lemma_threshold_bound(nb_shapes as int, surf as int);
            }
            c > 5 * K_I * (nb_shapes as i128) * (surf as i128)
        },
    };
    if make_leaf {
        let mut shapes: Vec<usize> = Vec::new();
        let ghost mut src: Seq<int> = Seq::empty();
        let mut i: usize = 0;
        while i < candidates.len()
            invariant
                cs == candidates@,
                cands_match(cs, bounds),
                crate::candidate::events_unique(cs),
                i <= cs.len(),
                forall|k: int| 0 <= k < shapes@.len() ==> (#[trigger] shapes@[k]) < bounds.len(),
                forall|s: usize| #[trigger] shapes@.contains(s) ==> in_shapes(cs, s),
                forall|j: int|
                    0 <= j < i && cs[j].start && (#[trigger] cs[j]).plane.dimension == Dimension::X
                        ==> shapes@.contains(cs[j].shape),
                src.len() == shapes@.len(),
                forall|k: int|
                    0 <= k < src.len() ==> 0 <= #[trigger] src[k] < i && shapes@[k]
                        == cs[src[k]].shape && cs[src[k]].start && cs[src[k]].plane.dimension
                        == Dimension::X,
                forall|k1: int, k2: int|
                    0 <= k1 < k2 < src.len() ==> #[trigger] src[k1] < #[trigger] src[k2],
                shapes@.no_duplicates(),
            decreases cs.len() - i,
        {
            proof {
                assert(cs.contains(cs[i as int]));
            }
            let e = candidates[i];
            if e.is_left() && e.dimension() == Dimension::X {
                let ghost pre = shapes@;
                shapes.push(e.shape);
                proof {
                    src = src.push(i as int);
                    lemma_push_contains_usize(pre, e.shape);
                    // a second x-axis begin of the same object would break
                    // the one-begin-per-axis property
                    assert forall|k1: int, k2: int|
                        (0 <= k1 < shapes@.len() && 0 <= k2 < shapes@.len() && k1 != k2) implies
                        shapes@[k1] != shapes@[k2] by {
                        if shapes@[k1] == shapes@[k2] {
                            let a = if k1 < k2 {
                                k1
                            } else {
                                k2
                            };
                            let b = if k1 < k2 {
                                k2
                            } else {
                                k1
                            };
                            assert(src[a] < src[b]);
                            assert(!crate::candidate::same_event_key(cs[src[a]], cs[src[b]]));
                        }
                    }
                }
            }
            i = i + 1;
        }
        tree.push(KDTreeNode::Leaf { shapes });
        proof {
            let t1 = tree@;
            assert(t1.subrange(0, t0.len() as int) =~= t0);
            assert(t1[t0.len() as int] matches KDTreeNode::Leaf { shapes: s2 } && forall|k: int|
                0 <= k < s2@.len() ==> (#[trigger] s2@[k]) < bounds.len());
            assert(wf_from(t1, t0.len() as int, t1.len() as int, *space, bounds));
            assert forall|j: int|
                0 <= j < cs.len() implies cost_exceeds_leaf(
                #[trigger] sweep_cost_at(cs, j, *space, nb_shapes as int),
                *space,
                nb_shapes as int,
            ) by {
                assert(!cost_lt(sweep_cost_at(cs, j, *space, nb_shapes as int), opt_cost_view(cost_opt)));
            }
            assert forall|s: usize| #[trigger] in_shapes(cs, s) implies has_x_begin(cs, s) by {}
            assert(objset(t1, t0.len() as int) =~= shapes_of(cs)) by {
                assert forall|s: usize| objset(t1, t0.len() as int).contains(s) implies shapes_of(
                    cs,
                ).contains(s) by {}
                assert forall|s: usize| shapes_of(cs).contains(s) implies objset(
                    t1,
                    t0.len() as int,
                ).contains(s) by {
                    assert(in_shapes(cs, s));
                    assert(has_x_begin(cs, s));
                    let c = choose|c: Candidate|
                        #[trigger] cs.contains(c) && c.shape == s && c.start && c.plane.dimension
                            == Dimension::X;
                    let j = choose|j: int| 0 <= j < cs.len() && cs[j] == c;
                }
            }
        }
        return 1;
    }
    let ghost c_val = cost_opt.unwrap() as int;
    proof {
        // a finite best cost means its plane strictly cuts this space
        assert(sweep_cost_at(cs, best_index as int, *space, nb_shapes as int) == Some(c_val));
        assert(cs[best_index as int].plane.spec_cutting(*space));
    }
    let best_plane = candidates[best_index].plane;
    let (left_space, right_space) = split_space(space, &best_plane);
    proof {
        lemma_split_valid(*space, best_plane);
        lemma_split_shrinks(*space, best_plane);
    }
    let (left_candidates, right_candidates) = classify(
        candidates,
        best_index,
        sides,
        Ghost(bounds),
    );
    let ghost lcs = left_candidates@;
    let ghost rcs = right_candidates@;
    let node_index = tree.len();
    tree.push(
        KDTreeNode::Node { l_child: 0, l_space: left_space, r_child: 0, r_space: right_space },
    );
    let depth_left = build_tree(&left_space, left_candidates, n_l, sides, tree, Ghost(bounds));
    let ghost t1 = tree@;
    let r_child_index = tree.len();
    proof {
        assert(t1.len() <= usize::MAX);
    }
    tree[node_index] = KDTreeNode::Node {
        l_child: node_index + 1,
        l_space: left_space,
        r_child: r_child_index,
        r_space: right_space,
    };
    let ghost t2 = tree@;
    let depth_right = build_tree(&right_space, right_candidates, n_r, sides, tree, Ghost(bounds));
    let ghost t3 = tree@;
    let depth = 1 + if depth_left > depth_right {
        depth_left
    } else {
        depth_right
    };
    proof {
        let j = node_index as int;
        let lc = j + 1;
        let rc = r_child_index as int;
        let end = t3.len() as int;
        // the right subtree left everything below it unchanged
        assert(forall|k: int| 0 <= k < rc ==> t3[k] == #[trigger] t2[k]) by {
            assert(t3.subrange(0, rc) == t2);
            assert(forall|k: int|
                0 <= k < rc ==> #[trigger] t3.subrange(0, rc)[k] == t3[k]);
        }
        // patching the parent did not touch the left subtree's slots
        assert forall|k: int| lc <= k < rc implies t3[k] == #[trigger] t1[k] by {
            assert(t2 == t1.update(j, t2[j]));
            assert(t3[k] == t2[k]);
            assert(t2[k] == t1[k]);
        }
        lemma_subtree_frame(t1, t3, lc, rc, left_space, bounds);
        assert(wf_from(t3, rc, end, right_space, bounds));
        assert(t3[j] == (KDTreeNode::Node {
            l_child: (j + 1) as usize,
            l_space: left_space,
            r_child: rc as usize,
            r_space: right_space,
        }));
        assert(objset(t3, j) =~= shapes_of(cs)) by {
            assert(objset(t3, j) == objset(t3, lc) + objset(t3, rc));
            assert forall|s: usize| objset(t3, j).contains(s) implies shapes_of(cs).contains(
                s,
            ) by {
                if objset(t3, lc).contains(s) {
                    assert(in_shapes(lcs, s));
                } else {
                    assert(in_shapes(rcs, s));
                }
            }
            assert forall|s: usize| shapes_of(cs).contains(s) implies objset(t3, j).contains(
                s,
            ) by {
                assert(in_shapes(cs, s));
                if in_shapes(lcs, s) {
                    assert(objset(t3, lc).contains(s));
                } else {
                    assert(in_shapes(rcs, s));
                    assert(objset(t3, rc).contains(s));
                }
            }
        }
        // the stored sub-boxes are the two halves at the winning plane, and
        // an object missing from a child lies fully beyond that child
        assert forall|s: usize|
            #[trigger] objset(t3, j).contains(s) implies (objset(t3, lc).contains(s) || bounds[
            s as int
        ].min_at(best_plane.dimension) >= best_plane.pos) && (objset(t3, rc).contains(s) || bounds[
            s as int
        ].max_at(best_plane.dimension) <= best_plane.pos) by {
            assert(shapes_of(cs).contains(s));
            assert(in_shapes(cs, s));
            if !objset(t3, lc).contains(s) {
                assert(!in_shapes(lcs, s));
            }
            if !objset(t3, rc).contains(s) {
                assert(!in_shapes(rcs, s));
            }
        }
        assert(best_plane.spec_cutting(*space) && left_space == spec_split_left(
            *space,
            best_plane,
        ) && right_space == spec_split_right(*space, best_plane) && forall|s: usize|
            #[trigger] objset(t3, j).contains(s) ==> (objset(t3, lc).contains(s) || bounds[
                s as int
            ].min_at(best_plane.dimension) >= best_plane.pos) && (objset(t3, rc).contains(s)
                || bounds[s as int].max_at(best_plane.dimension) <= best_plane.pos));
        assert(wf_from(t3, j, end, *space, bounds));
        assert(t3.subrange(0, t0.len() as int) =~= t0) by {
            assert(t1.subrange(0, t0.len() as int + 1).subrange(0, t0.len() as int) =~= t0);
        }
        assert(!cost_exceeds_leaf(
            sweep_cost_at(cs, best_index as int, *space, nb_shapes as int),
            *space,
            nb_shapes as int,
        ));
        assert(is_first_min_cost(cs, best_index as int, *space, nb_shapes as int));
        assert(depth_of(t3, lc) == depth_left as int);
        assert(depth_of(t3, rc) == depth_right as int);
        assert(depth_of(t3, j) == 1 + if depth_left >= depth_right {
            depth_left as int
        } else {
            depth_right as int
        });
    }
    depth
}

/// Zero where the difference goes negative.
pub open spec fn clamp0(v: int) -> int {
    if v < 0 {
        0
    } else {
        v
    }
}

/// The set of values of an index sequence.
pub open spec fn seq_set(s: Seq<usize>) -> Set<usize> {
    Set::new(|x: usize| s.contains(x))
}

proof fn lemma_insert_contains_usize(s: Seq<usize>, j: int, c: usize)
    requires
        0 <= j <= s.len(),
    ensures
        forall|x: usize| #[trigger] s.insert(j, c).contains(x) <==> s.contains(x) || x == c,
{
    s.insert_ensures(j, c);
    assert forall|x: usize| #[trigger] s.insert(j, c).contains(x) implies s.contains(x) || x
        == c by {
        let k = choose|k: int| 0 <= k < s.insert(j, c).len() && s.insert(j, c)[k] == x;
        if k < j {
            assert(s[k] == x);
        } else if k > j {
            assert(s[k - 1] == x);
        }
    }
    assert forall|x: usize| s.contains(x) || x == c implies #[trigger] s.insert(j, c).contains(
        x,
    ) by {
        if s.contains(x) {
            let k = choose|k: int| 0 <= k < s.len() && s[k] == x;
            if k < j {
                assert(s.insert(j, c)[k] == x);
            } else {
                assert(s.insert(j, c)[k + 1] == x);
            }
        } else {
            assert(s.insert(j, c)[j] == x);
        }
    }
}

proof fn lemma_sub_contains_step(orig: Seq<usize>, i: int)
    requires
        0 <= i < orig.len(),
    ensures
        forall|x: usize| #[trigger] orig.subrange(0, i + 1).contains(x) <==> orig.subrange(
            0,
            i,
        ).contains(x) || orig[i] == x,
{
    assert(orig.subrange(0, i + 1) =~= orig.subrange(0, i).push(orig[i]));
    lemma_push_contains_usize(orig.subrange(0, i), orig[i]);
}

/// Sort object indices ascending; the set of values is unchanged.
fn sort_indices(v: &mut Vec<usize>)
    ensures
        forall|a: int, b: int| 0 <= a < b < final(v)@.len() ==> final(v)@[a] <= final(v)@[b],
        forall|x: usize| final(v)@.contains(x) <==> #[trigger] old(v)@.contains(x),
{
    let ghost orig = v@;
    let mut out: Vec<usize> = Vec::new();
    let mut i: usize = 0;
    while i < v.len()
        invariant
            orig == v@,
            i <= orig.len(),
            forall|a: int, b: int| 0 <= a < b < out@.len() ==> out@[a] <= out@[b],
            forall|x: usize| out@.contains(x) <==> #[trigger] orig.subrange(0, i as int).contains(
                x,
            ),
        decreases orig.len() - i,
    {
        let c = v[i];
        let mut j: usize = out.len();
        while j > 0 && out[j - 1] > c
            invariant
                j <= out@.len(),
                forall|a: int, b: int| 0 <= a < b < out@.len() ==> out@[a] <= out@[b],
                forall|k: int| j <= k < out@.len() ==> out@[k] > c,
            decreases j,
        {
            j = j - 1;
        }
        proof {
            let co = out@;
            co.insert_ensures(j as int, c);
            assert forall|a: int, b: int|
                0 <= a < b < co.insert(j as int, c).len() implies co.insert(j as int, c)[a]
                <= co.insert(j as int, c)[b] by {}
            lemma_insert_contains_usize(co, j as int, c);
            lemma_sub_contains_step(orig, i as int);
        }
        out.insert(j, c);
        i = i + 1;
    }
    proof {
        assert(orig.subrange(0, orig.len() as int) =~= orig);
    }
    *v = out;
}

/// Drop adjacent duplicate indices; the set of values is unchanged.
fn dedup_indices(v: &mut Vec<usize>)
    ensures
        forall|x: usize| final(v)@.contains(x) <==> #[trigger] old(v)@.contains(x),
{
    let ghost orig = v@;
    let mut out: Vec<usize> = Vec::new();
    let mut i: usize = 0;
    while i < v.len()
        invariant
            orig == v@,
            i <= orig.len(),
            forall|x: usize| out@.contains(x) <==> #[trigger] orig.subrange(0, i as int).contains(
                x,
            ),
        decreases orig.len() - i,
    {
        let c = v[i];
        let keep = if out.len() == 0 {
            true
        } else {
            out[out.len() - 1] != c
        };
        let ghost pre = out@;
        if keep {
            out.push(c);
        }
        proof {
            if keep {
                lemma_push_contains_usize(pre, c);
            } else {
                assert(pre[pre.len() - 1] == c);
                assert(pre.contains(c));
            }
            lemma_sub_contains_step(orig, i as int);
        }
        i = i + 1;
    }
    proof {
        assert(orig.subrange(0, orig.len() as int) =~= orig);
    }
    *v = out;
}

/// Total count of arena slots owned by the subtrees on the stack: the
/// traversal's termination measure.
pub open spec fn stack_measure(st: Seq<usize>, ends: Seq<int>) -> int
    decreases st.len(),
{
    if st.len() == 0 {
        0
    } else {
        stack_measure(st.drop_last(), ends.drop_last()) + (ends.last() - st.last() as int)
    }
}

/// Some object named by the index list meets the ray at `tn / td`.
pub open spec fn subset_hits<H: Hittable>(
    objects: Seq<H>,
    idxs: Seq<usize>,
    r: Ray,
    tn: int,
    td: int,
) -> bool {
    exists|m: int|
        0 <= m < idxs.len() && #[trigger] objects[idxs[m] as int].spec_hits(r, tn, td)
}

proof fn lemma_rat_pos_le_kd(tn: int, td: int, mn: int, md: int)
    by (nonlinear_arith)
    requires
        mn > 0,
        md > 0,
        td > 0,
        crate::math::rat_le(mn, md, tn, td),
    ensures
        tn > 0,
{
}

proof fn lemma_stack_measure_nonneg(st: Seq<usize>, ends: Seq<int>)
    requires
        st.len() == ends.len(),
        forall|k: int| 0 <= k < st.len() ==> (#[trigger] st[k] as int) < ends[k],
    ensures
        stack_measure(st, ends) >= st.len(),
    decreases st.len(),
{
    if st.len() > 0 {
        lemma_stack_measure_nonneg(st.drop_last(), ends.drop_last());
        assert((st[st.len() - 1] as int) < ends[ends.len() - 1]);
    }
}

/// The set of object indices stored in the leaves of the subtree rooted at
/// arena index `j`.
pub open spec fn objset(nodes: Seq<KDTreeNode>, j: int) -> Set<usize>
    decreases nodes.len() - j,
{
    if 0 <= j < nodes.len() {
        match nodes[j] {
            KDTreeNode::Leaf { shapes } => Set::new(|s: usize| shapes@.contains(s)),
            KDTreeNode::Node { l_child, r_child, .. } => (if j < l_child < nodes.len() {
                objset(nodes, l_child as int)
            } else {
                Set::empty()
            }) + (if j < r_child < nodes.len() {
                objset(nodes, r_child as int)
            } else {
                Set::empty()
            }),
        }
    } else {
        Set::empty()
    }
}

/// The object indices a stack traversal of the subtree at `j` gathers for
/// ray `r`: all of a leaf's objects, and of an interior node only the
/// children whose sub-box the ray meets.
pub open spec fn visit(nodes: Seq<KDTreeNode>, j: int, r: Ray) -> Set<usize>
    decreases nodes.len() - j,
{
    if 0 <= j < nodes.len() {
        match nodes[j] {
            KDTreeNode::Leaf { shapes } => Set::new(|s: usize| shapes@.contains(s)),
            KDTreeNode::Node { l_child, l_space, r_child, r_space } => (if j < l_child
                < nodes.len() && crate::ray::ray_hits_box(r, l_space) {
                visit(nodes, l_child as int, r)
            } else {
                Set::empty()
            }) + (if j < r_child < nodes.len() && crate::ray::ray_hits_box(r, r_space) {
                visit(nodes, r_child as int, r)
            } else {
                Set::empty()
            }),
        }
    } else {
        Set::empty()
    }
}

/// Depth of the subtree rooted at `j`: one for a leaf, one more than the
/// deeper child for an interior node. Used to pre-size traversal stacks.
pub open spec fn depth_of(nodes: Seq<KDTreeNode>, j: int) -> int
    decreases nodes.len() - j,
{
    if 0 <= j < nodes.len() {
        match nodes[j] {
            KDTreeNode::Leaf { .. } => 1,
            KDTreeNode::Node { l_child, r_child, .. } => {
                let dl = if j < l_child < nodes.len() {
                    depth_of(nodes, l_child as int)
                } else {
                    0
                };
                let dr = if j < r_child < nodes.len() {
                    depth_of(nodes, r_child as int)
                } else {
                    0
                };
                1 + if dl >= dr {
                    dl
                } else {
                    dr
                }
            },
        }
    } else {
        0
    }
}

/// The union of `visit` over a stack of subtree roots.
pub open spec fn visit_union(nodes: Seq<KDTreeNode>, st: Seq<usize>, r: Ray) -> Set<usize>
    decreases st.len(),
{
    if st.len() == 0 {
        Set::empty()
    } else {
        visit_union(nodes, st.drop_last(), r) + visit(nodes, st.last() as int, r)
    }
}

/// The subtree rooted at `j` occupies exactly the arena slots `[j, end)`
/// and partitions `space`: a leaf holds object indices into `bounds`; an
/// interior node's sub-boxes are the two halves of `space` at some plane
/// cutting it, its left child follows it immediately, and an object of the
/// subtree missing from a child lies fully beyond that child's half.
pub open spec fn wf_from(
    nodes: Seq<KDTreeNode>,
    j: int,
    end: int,
    space: AABB,
    bounds: Seq<AABB>,
) -> bool
    decreases end - j,
{
    &&& 0 <= j < end <= nodes.len()
    &&& space.valid()
    &&& match nodes[j] {
        KDTreeNode::Leaf { shapes } => j + 1 == end && shapes@.no_duplicates() && forall|k: int|
            0 <= k < shapes@.len() ==> (#[trigger] shapes@[k]) < bounds.len(),
        KDTreeNode::Node { l_child, l_space, r_child, r_space } => {
            &&& l_child == j + 1
            &&& j + 1 < r_child < end
            &&& (exists|plane: Plane|
                {
                    &&& #[trigger] plane.spec_cutting(space)
                    &&& l_space == spec_split_left(space, plane)
                    &&& r_space == spec_split_right(space, plane)
                    &&& forall|s: usize|
                        #[trigger] objset(nodes, j).contains(s) ==> (objset(
                            nodes,
                            l_child as int,
                        ).contains(s) || bounds[s as int].min_at(plane.dimension)
                            >= plane.pos) && (objset(nodes, r_child as int).contains(s) || bounds[
                            s as int
                        ].max_at(plane.dimension) <= plane.pos)
                })
            &&& wf_from(nodes, l_child as int, r_child as int, l_space, bounds)
            &&& wf_from(nodes, r_child as int, end, r_space, bounds)
        },
    }
}

/// A well-formed subtree reads only its own arena slots: any arena holding
/// the same slots in `[j, end)` has the same structure and object set.
pub proof fn lemma_subtree_frame(
    nodes1: Seq<KDTreeNode>,
    nodes2: Seq<KDTreeNode>,
    j: int,
    end: int,
    space: AABB,
    bounds: Seq<AABB>,
)
    requires
        wf_from(nodes1, j, end, space, bounds),
        nodes2.len() >= end,
        forall|k: int| j <= k < end ==> nodes2[k] == nodes1[k],
    ensures
        wf_from(nodes2, j, end, space, bounds),
        objset(nodes2, j) == objset(nodes1, j),
        depth_of(nodes2, j) == depth_of(nodes1, j),
    decreases end - j,
{
    match nodes1[j] {
        KDTreeNode::Leaf { shapes } => {
            assert(objset(nodes2, j) =~= objset(nodes1, j));
        },
        KDTreeNode::Node { l_child, l_space, r_child, r_space } => {
            lemma_subtree_frame(nodes1, nodes2, l_child as int, r_child as int, l_space, bounds);
            lemma_subtree_frame(nodes1, nodes2, r_child as int, end, r_space, bounds);
            assert(objset(nodes2, j) =~= objset(nodes1, j));
            let plane = choose|plane: Plane|
                {
                    &&& #[trigger] plane.spec_cutting(space)
                    &&& l_space == spec_split_left(space, plane)
                    &&& r_space == spec_split_right(space, plane)
                    &&& forall|s: usize|
                        #[trigger] objset(nodes1, j).contains(s) ==> (objset(
                            nodes1,
                            l_child as int,
                        ).contains(s) || bounds[s as int].min_at(plane.dimension)
                            >= plane.pos) && (objset(nodes1, r_child as int).contains(s) || bounds[
                            s as int
                        ].max_at(plane.dimension) <= plane.pos)
                };
            assert forall|s: usize| #[trigger] objset(nodes2, j).contains(s) implies (objset(
                nodes2,
                l_child as int,
            ).contains(s) || bounds[s as int].min_at(plane.dimension) >= plane.pos) && (objset(
                nodes2,
                r_child as int,
            ).contains(s) || bounds[s as int].max_at(plane.dimension) <= plane.pos) by {
                assert(objset(nodes1, j).contains(s));
            }
        },
    }
}

/// Traversal never gathers an index outside the subtree's object set.
pub proof fn lemma_visit_in_objset(
    nodes: Seq<KDTreeNode>,
    j: int,
    end: int,
    space: AABB,
    bounds: Seq<AABB>,
    r: Ray,
)
    requires
        wf_from(nodes, j, end, space, bounds),
    ensures
        visit(nodes, j, r).subset_of(objset(nodes, j)),
        forall|s: usize| #[trigger] objset(nodes, j).contains(s) ==> s < bounds.len(),
    decreases end - j,
{
    match nodes[j] {
        KDTreeNode::Leaf { shapes } => {},
        KDTreeNode::Node { l_child, l_space, r_child, r_space } => {
            lemma_visit_in_objset(nodes, l_child as int, r_child as int, l_space, bounds, r);
            lemma_visit_in_objset(nodes, r_child as int, end, r_space, bounds, r);
        },
    }
}

/// The coordinate of the ray's point at `tn / td` along axis `d`, scaled
/// by `td`.
pub open spec fn axis_coord(r: Ray, tn: int, td: int, d: Dimension) -> int {
    r.orig.spec_at(d) * td + tn * r.dir.spec_at(d)
}

proof fn lemma_point_in_split(r: Ray, tn: int, td: int, space: AABB, plane: Plane)
    requires
        td > 0,
        space.valid(),
        plane.spec_cutting(space),
        crate::ray::on_ray_in_box(r, tn, td, space),
    ensures
        axis_coord(r, tn, td, plane.dimension) <= plane.pos * td ==> crate::ray::on_ray_in_box(
            r,
            tn,
            td,
            spec_split_left(space, plane),
        ),
        axis_coord(r, tn, td, plane.dimension) >= plane.pos * td ==> crate::ray::on_ray_in_box(
            r,
            tn,
            td,
            spec_split_right(space, plane),
        ),
{
    assert(space.min.spec_at(plane.dimension) <= space.max.spec_at(plane.dimension));
    match plane.dimension {
        Dimension::X => {},
        Dimension::Y => {},
        Dimension::Z => {},
    }
}

/// An object of the subtree whose box the ray's point at a positive
/// parameter lies in, with the point inside the subtree's space, is always
/// gathered by the traversal: pruning by sub-box never loses a relevant
/// object.
pub proof fn lemma_visit_complete(
    nodes: Seq<KDTreeNode>,
    j: int,
    end: int,
    space: AABB,
    bounds: Seq<AABB>,
    r: Ray,
    s: usize,
    tn: int,
    td: int,
)
    requires
        wf_from(nodes, j, end, space, bounds),
        objset(nodes, j).contains(s),
        td > 0,
        tn > 0,
        crate::ray::on_ray_in_box(r, tn, td, space),
        crate::ray::on_ray_in_box(r, tn, td, bounds[s as int]),
    ensures
        visit(nodes, j, r).contains(s),
    decreases end - j,
{
    lemma_visit_in_objset(nodes, j, end, space, bounds, r);
    match nodes[j] {
        KDTreeNode::Leaf { shapes } => {},
        KDTreeNode::Node { l_child, l_space, r_child, r_space } => {
            let plane = choose|plane: Plane|
                {
                    &&& #[trigger] plane.spec_cutting(space)
                    &&& l_space == spec_split_left(space, plane)
                    &&& r_space == spec_split_right(space, plane)
                    &&& forall|s2: usize|
                        #[trigger] objset(nodes, j).contains(s2) ==> (objset(
                            nodes,
                            l_child as int,
                        ).contains(s2) || bounds[s2 as int].min_at(plane.dimension)
                            >= plane.pos) && (objset(nodes, r_child as int).contains(s2) || bounds[
                            s2 as int
                        ].max_at(plane.dimension) <= plane.pos)
                };
            lemma_point_in_split(r, tn, td, space, plane);
            let d = plane.dimension;
            let coord = axis_coord(r, tn, td, d);
            // the point's slab membership in the object's own box, on the
            // split axis, scaled by td
            assert(bounds[s as int].min_at(d) * td <= coord && coord <= bounds[s as int].max_at(d)
                * td) by {
                match d {
                    Dimension::X => {},
                    Dimension::Y => {},
                    Dimension::Z => {},
                }
            }
            if objset(nodes, l_child as int).contains(s) && coord <= plane.pos * td {
                lemma_visit_complete(
                    nodes,
                    l_child as int,
                    r_child as int,
                    l_space,
                    bounds,
                    r,
                    s,
                    tn,
                    td,
                );
                assert(crate::ray::ray_hits_box(r, l_space));
            } else if objset(nodes, r_child as int).contains(s) && coord >= plane.pos * td {
                lemma_visit_complete(nodes, r_child as int, end, r_space, bounds, r, s, tn, td);
                assert(crate::ray::ray_hits_box(r, r_space));
            } else {
                // the object is missing from the child whose half holds the
                // point, so its box lies fully beyond the splitting plane,
                // against the point being inside it
                if coord <= plane.pos * td && !objset(nodes, l_child as int).contains(s) {
                    assert(bounds[s as int].min_at(d) >= plane.pos);
                    lemma_mul_le_mono(plane.pos as int, bounds[s as int].min_at(d), td);
                    assert(coord == plane.pos * td);
                    lemma_visit_complete(nodes, r_child as int, end, r_space, bounds, r, s, tn, td);
                    assert(crate::ray::ray_hits_box(r, r_space));
                } else {
                    assert(coord > plane.pos * td && !objset(nodes, r_child as int).contains(s));
                    assert(bounds[s as int].max_at(d) <= plane.pos);
                    lemma_mul_le_mono(bounds[s as int].max_at(d), plane.pos as int, td);
                    assert(false);
                }
            }
        },
    }
}

proof fn lemma_mul_le_mono(a: int, b: int, c: int)
    by (nonlinear_arith)
    requires
        a <= b,
        c > 0,
    ensures
        a * c <= b * c,
{
}

/// Event `j` of the list belongs to object `s` and axis `d`.
pub open spec fn dim_event_at(cands: Seq<Candidate>, j: int, s: usize, d: Dimension) -> bool {
    0 <= j < cands.len() && cands[j].shape == s && cands[j].plane.dimension == d
}

/// Object `s` has an event of axis `d` among indices `[0, to)`.
pub open spec fn has_dim_event_before(
    cands: Seq<Candidate>,
    s: usize,
    d: Dimension,
    to: int,
) -> bool {
    exists|j: int| 0 <= j < to && #[trigger] dim_event_at(cands, j, s, d)
}

/// Object `s` has a begin event of axis `d` among indices `[from, to)`.
pub open spec fn has_begin_in(
    cands: Seq<Candidate>,
    s: usize,
    d: Dimension,
    from: int,
    to: int,
) -> bool {
    exists|j: int| from <= j < to && #[trigger] dim_event_at(cands, j, s, d) && cands[j].start
}

/// The last event of object `s` on axis `d` among indices `[0, to)` exists
/// and is an end event.
pub open spec fn last_is_end_before(
    cands: Seq<Candidate>,
    s: usize,
    d: Dimension,
    to: int,
) -> bool {
    exists|j: int|
        0 <= j < to && #[trigger] dim_event_at(cands, j, s, d) && !cands[j].start && (forall|
            k: int,
        |
            j < k < to ==> !#[trigger] dim_event_at(cands, k, s, d))
}

/// The side the classification assigns to object `s` against the plane of
/// event `best_index`: `Right` when the object's box begins at or after
/// the plane (a begin event of the winning axis at or past the winning
/// index); otherwise `Left` when the box has ended by the plane (the
/// object's last event of the winning axis up to and including the winning
/// index is an end); otherwise `Both` (the box straddles the plane).
pub open spec fn spec_side_of(cands: Seq<Candidate>, best_index: int, s: usize) -> Side {
    let d = cands[best_index].plane.dimension;
    if has_begin_in(cands, s, d, best_index, cands.len() as int) {
        Side::Right
    } else if last_is_end_before(cands, s, d, best_index + 1) {
        Side::Left
    } else {
        Side::Both
    }
}

/// Walk the sorted event list against the winning plane and record, per
/// object with events of the winning axis, which side of the plane it
/// falls on: exactly `spec_side_of`. An object whose box ends at or before
/// the plane goes `Left`; one whose box begins at or after the plane goes
/// `Right`; one straddling the plane goes `Both`. Entries of objects
/// without events of the winning axis are left untouched; entries left
/// over from earlier partition steps are cleared first.
#[verifier::rlimit(60)]
pub fn classify_items(
    candidates: &Candidates,
    best_index: usize,
    sides: &mut Vec<Side>,
    Ghost(bounds): Ghost<Seq<AABB>>,
)
    requires
        best_index < candidates@.len(),
        sorted_cands(candidates@),
        cands_match(candidates@, bounds),
        old(sides)@.len() == bounds.len(),
    ensures
        final(sides)@.len() == old(sides)@.len(),
        // the classification, pinned: every object with events of the
        // winning axis gets exactly the side the sweep assigns it
        forall|s: usize|
            has_dim_event_before(
                candidates@,
                s,
                candidates@[best_index as int].plane.dimension,
                candidates@.len() as int,
            ) ==> final(sides)@[s as int] == spec_side_of(candidates@, best_index as int, s),
        // frame: objects without events of the winning axis keep their entry
        forall|s: usize|
            (s as int) < old(sides)@.len() && !has_dim_event_before(
                candidates@,
                s,
                candidates@[best_index as int].plane.dimension,
                candidates@.len() as int,
            ) ==> final(sides)@[s as int] == old(sides)@[s as int],
        // geometry of the marks: Right means the box starts at or past the
        // plane, Left means it ends at or before it
        forall|s: usize|
            has_dim_event_before(
                candidates@,
                s,
                candidates@[best_index as int].plane.dimension,
                candidates@.len() as int,
            ) && final(sides)@[s as int] == Side::Right ==> bounds[s as int].min_at(
                candidates@[best_index as int].plane.dimension,
            ) >= candidates@[best_index as int].plane.pos,
        forall|s: usize|
            has_dim_event_before(
                candidates@,
                s,
                candidates@[best_index as int].plane.dimension,
                candidates@.len() as int,
            ) && final(sides)@[s as int] == Side::Left ==> bounds[s as int].max_at(
                candidates@[best_index as int].plane.dimension,
            ) <= candidates@[best_index as int].plane.pos,
{
    let ghost cs = candidates@;
    let ghost s0 = old(sides)@;
    let n_cands = candidates.len();
    proof {
        assert(cs.len() == n_cands);
    }
    let ghost d = cs[best_index as int].plane.dimension;
    let ghost best_pos = cs[best_index as int].plane.pos as int;
    let best_dimension = candidates[best_index].dimension();
    // Clear classifications left over from earlier steps, for the objects
    // this step will classify
    let mut k: usize = 0;
    while k < candidates.len()
        invariant
            cs == candidates@,
            n_cands == cs.len(),
            best_index < cs.len(),
            cands_match(cs, bounds),
            best_dimension == d,
            d == cs[best_index as int].plane.dimension,
            sides@.len() == s0.len(),
            s0.len() == bounds.len(),
            k <= cs.len(),
            forall|s: usize|
                #[trigger] has_dim_event_before(cs, s, d, k as int) ==> sides@[s as int]
                    == Side::Both,
            forall|s: usize|
                (s as int) < s0.len() && !has_dim_event_before(cs, s, d, k as int) ==> sides@[
                    s as int
                ] == s0[s as int],
        decreases cs.len() - k,
    {
        proof {
            assert(cs.contains(cs[k as int]));
        }
        let is_d = candidates[k].dimension() == best_dimension;
        let ghost pre = sides@;
        if is_d {
            let sh = candidates[k].shape;
            sides[sh] = Side::Both;
        }
        proof {
            let x = cs[k as int].shape;
            if is_d {
                assert(sides@ == pre.update(x as int, Side::Both));
            } else {
                assert(sides@ == pre);
            }
            assert forall|s: usize|
                #[trigger] has_dim_event_before(cs, s, d, k as int + 1) implies sides@[s as int]
                == Side::Both by {
                let j = choose|j: int| 0 <= j < k + 1 && #[trigger] dim_event_at(cs, j, s, d);
                assert(cs.contains(cs[j]));
                assert((s as int) < bounds.len());
                if j < k {
                    assert(has_dim_event_before(cs, s, d, k as int));
                    assert(pre[s as int] == Side::Both);
                    if is_d && s == x {
                    } else {
                        assert(sides@[s as int] == pre[s as int]);
                    }
                } else {
                    assert(is_d && s == x);
                }
            }
            assert forall|s: usize|
                (s as int) < s0.len() && !has_dim_event_before(cs, s, d, k as int + 1) implies
                sides@[s as int] == s0[s as int] by {
                assert(!has_dim_event_before(cs, s, d, k as int));
                if is_d && s == x {
                    assert(dim_event_at(cs, k as int, x, d));
                    assert(has_dim_event_before(cs, s, d, k as int + 1));
                }
            }
        }
        k = k + 1;
    }
    // Events at or before the winning plane: an end marks its object left
    // of the plane, a begin provisionally on both sides
    let mut i: usize = 0;
    while i <= best_index
        invariant
            cs == candidates@,
            n_cands == cs.len(),
            best_index < cs.len(),
            sorted_cands(cs),
            cands_match(cs, bounds),
            best_dimension == d,
            d == cs[best_index as int].plane.dimension,
            best_pos == cs[best_index as int].plane.pos as int,
            sides@.len() == s0.len(),
            s0.len() == bounds.len(),
            i <= best_index + 1,
            forall|s: usize|
                #[trigger] has_dim_event_before(cs, s, d, cs.len() as int) ==> sides@[s as int]
                    == (if last_is_end_before(cs, s, d, i as int) {
                    Side::Left
                } else {
                    Side::Both
                }),
            forall|s: usize|
                (s as int) < s0.len() && !has_dim_event_before(cs, s, d, cs.len() as int)
                    ==> sides@[s as int] == s0[s as int],
        decreases best_index + 1 - i,
    {
        proof {
            assert(cs.contains(cs[i as int]));
        }
        let is_d = candidates[i].dimension() == best_dimension;
        let is_end = candidates[i].is_right();
        let ghost pre = sides@;
        if is_d {
            let sh = candidates[i].shape;
            let v = if is_end {
                Side::Left
            } else {
                Side::Both
            };
            sides[sh] = v;
        }
        proof {
            let x = cs[i as int].shape;
            if is_d {
                assert(sides@ == pre.update(
                    x as int,
                    if is_end {
                        Side::Left
                    } else {
                        Side::Both
                    },
                ));
            } else {
                assert(sides@ == pre);
            }
            assert forall|s: usize|
                #[trigger] has_dim_event_before(cs, s, d, cs.len() as int) implies sides@[s as int]
                == (if last_is_end_before(cs, s, d, i as int + 1) {
                Side::Left
            } else {
                Side::Both
            }) by {
                let j0 = choose|j0: int|
                    0 <= j0 < cs.len() && #[trigger] dim_event_at(cs, j0, s, d);
                assert(cs.contains(cs[j0]));
                assert((s as int) < bounds.len());
                if is_d && s == x {
                    assert(dim_event_at(cs, i as int, x, d));
                    if is_end {
                        // the end at `i` is now the last event so far
                        assert(last_is_end_before(cs, s, d, i as int + 1));
                    } else {
                        // the begin at `i` follows any earlier end
                        if last_is_end_before(cs, s, d, i as int + 1) {
                            let j = choose|j: int|
                                0 <= j < i + 1 && #[trigger] dim_event_at(cs, j, s, d)
                                    && !cs[j].start && (forall|k2: int|
                                    j < k2 < i + 1 ==> !#[trigger] dim_event_at(cs, k2, s, d));
                            assert(dim_event_at(cs, i as int, s, d));
                            assert(false);
                        }
                    }
                } else {
                    // no event of `s` at `i`: the last-event view is unchanged
                    assert(sides@[s as int] == pre[s as int]);
                    assert(last_is_end_before(cs, s, d, i as int + 1) == last_is_end_before(
                        cs,
                        s,
                        d,
                        i as int,
                    )) by {
                        assert(!dim_event_at(cs, i as int, s, d));
                        if last_is_end_before(cs, s, d, i as int) {
                            let j = choose|j: int|
                                0 <= j < i && #[trigger] dim_event_at(cs, j, s, d) && !cs[j].start
                                    && (forall|k2: int|
                                    j < k2 < i ==> !#[trigger] dim_event_at(cs, k2, s, d));
                            assert forall|k2: int|
                                j < k2 < i + 1 implies !#[trigger] dim_event_at(cs, k2, s, d) by {}
                            assert(last_is_end_before(cs, s, d, i as int + 1));
                        }
                        if last_is_end_before(cs, s, d, i as int + 1) {
                            let j = choose|j: int|
                                0 <= j < i + 1 && #[trigger] dim_event_at(cs, j, s, d)
                                    && !cs[j].start && (forall|k2: int|
                                    j < k2 < i + 1 ==> !#[trigger] dim_event_at(cs, k2, s, d));
                            assert(j != i);
                            assert(last_is_end_before(cs, s, d, i as int));
                        }
                    }
                }
            }
            assert forall|s: usize|
                (s as int) < s0.len() && !has_dim_event_before(cs, s, d, cs.len() as int) implies
                sides@[s as int] == s0[s as int] by {
                if is_d {
                    assert(dim_event_at(cs, i as int, x, d));
                    assert(s != x);
                    assert(sides@[s as int] == pre[s as int]);
                } else {
                    assert(sides@ == pre);
                }
            }
        }
        i = i + 1;
    }
    // Events at or after the winning plane: a begin marks its object right
    // of the plane (its box only starts there)
    let mut i2: usize = best_index;
    while i2 < candidates.len()
        invariant
            cs == candidates@,
            n_cands == cs.len(),
            best_index < cs.len(),
            sorted_cands(cs),
            cands_match(cs, bounds),
            best_dimension == d,
            d == cs[best_index as int].plane.dimension,
            best_pos == cs[best_index as int].plane.pos as int,
            sides@.len() == s0.len(),
            s0.len() == bounds.len(),
            best_index <= i2 <= cs.len(),
            forall|s: usize|
                #[trigger] has_dim_event_before(cs, s, d, cs.len() as int) ==> sides@[s as int]
                    == (if has_begin_in(cs, s, d, best_index as int, i2 as int) {
                    Side::Right
                } else if last_is_end_before(cs, s, d, best_index as int + 1) {
                    Side::Left
                } else {
                    Side::Both
                }),
            forall|s: usize|
                (s as int) < s0.len() && !has_dim_event_before(cs, s, d, cs.len() as int)
                    ==> sides@[s as int] == s0[s as int],
        decreases cs.len() - i2,
    {
        proof {
            assert(cs.contains(cs[i2 as int]));
        }
        let is_d_begin = candidates[i2].dimension() == best_dimension && candidates[i2].is_left();
        let ghost pre = sides@;
        if is_d_begin {
            let sh = candidates[i2].shape;
            sides[sh] = Side::Right;
        }
        proof {
            let x = cs[i2 as int].shape;
            if is_d_begin {
                assert(sides@ == pre.update(x as int, Side::Right));
            } else {
                assert(sides@ == pre);
            }
            assert forall|s: usize|
                #[trigger] has_dim_event_before(cs, s, d, cs.len() as int) implies sides@[s as int]
                == (if has_begin_in(cs, s, d, best_index as int, i2 as int + 1) {
                Side::Right
            } else if last_is_end_before(cs, s, d, best_index as int + 1) {
                Side::Left
            } else {
                Side::Both
            }) by {
                let j0 = choose|j0: int|
                    0 <= j0 < cs.len() && #[trigger] dim_event_at(cs, j0, s, d);
                assert(cs.contains(cs[j0]));
                assert((s as int) < bounds.len());
                if is_d_begin && s == x {
                    assert(dim_event_at(cs, i2 as int, x, d));
                    assert(has_begin_in(cs, s, d, best_index as int, i2 as int + 1));
                } else {
                    assert(sides@[s as int] == pre[s as int]);
                    assert(has_begin_in(cs, s, d, best_index as int, i2 as int + 1)
                        == has_begin_in(cs, s, d, best_index as int, i2 as int)) by {
                        if has_begin_in(cs, s, d, best_index as int, i2 as int + 1) {
                            let j = choose|j: int|
                                best_index <= j < i2 + 1 && #[trigger] dim_event_at(cs, j, s, d)
                                    && cs[j].start;
                            assert(j != i2);
                            assert(has_begin_in(cs, s, d, best_index as int, i2 as int));
                        }
                    }
                }
            }
            assert forall|s: usize|
                (s as int) < s0.len() && !has_dim_event_before(cs, s, d, cs.len() as int) implies
                sides@[s as int] == s0[s as int] by {
                if is_d_begin {
                    assert(dim_event_at(cs, i2 as int, x, d));
                    assert(s != x);
                    assert(sides@[s as int] == pre[s as int]);
                } else {
                    assert(sides@ == pre);
                }
            }
        }
        i2 = i2 + 1;
    }
    proof {
        // the assigned marks say where each box stands against the plane
        assert forall|s: usize|
            has_dim_event_before(cs, s, d, cs.len() as int) && sides@[s as int] == Side::Right
            implies bounds[s as int].min_at(d) >= best_pos by {
            assert(has_begin_in(cs, s, d, best_index as int, cs.len() as int));
            let j = choose|j: int|
                best_index <= j < cs.len() && #[trigger] dim_event_at(cs, j, s, d) && cs[j].start;
            assert(cs.contains(cs[j]));
            if best_index < j {
                assert(cand_le(cs[best_index as int], cs[j]));
            }
        }
        assert forall|s: usize|
            has_dim_event_before(cs, s, d, cs.len() as int) && sides@[s as int] == Side::Left
            implies bounds[s as int].max_at(d) <= best_pos by {
            assert(last_is_end_before(cs, s, d, best_index as int + 1));
            let j = choose|j: int|
                0 <= j < best_index + 1 && #[trigger] dim_event_at(cs, j, s, d) && !cs[j].start
                    && (forall|k2: int|
                    j < k2 < best_index + 1 ==> !#[trigger] dim_event_at(cs, k2, s, d));
            assert(cs.contains(cs[j]));
            if j < best_index {
                assert(cand_le(cs[j], cs[best_index as int]));
            }
        }
    }
}

/// Number of events among the first `i` of the list whose object is
/// marked `Both`: the events duplicated into both children.
pub open spec fn count_both_events(cands: Seq<Candidate>, sides: Seq<Side>, i: int) -> int
    decreases i,
{
    if i <= 0 {
        0
    } else {
        count_both_events(cands, sides, i - 1) + if sides[cands[i - 1].shape as int]
            == Side::Both {
            1int
        } else {
            0int
        }
    }
}

/// Route every event into the left or right sub-list according to its
/// object's side, duplicating the events of straddling objects into both.
/// No event is lost or invented: together the two lists hold every input
/// event exactly once, plus one extra copy of each straddling object's
/// events.
pub fn splicing_candidates(candidates: Candidates, sides: &Vec<Side>, Ghost(bounds): Ghost<
    Seq<AABB>,
>) -> (r: (Candidates, Candidates))
    requires
        sorted_cands(candidates@),
        cands_match(candidates@, bounds),
        sides@.len() == bounds.len(),
    ensures
        sorted_cands(r.0@),
        sorted_cands(r.1@),
        forall|c: Candidate| #[trigger] r.0@.contains(c) ==> candidates@.contains(c) && sides@[c.shape as int] != Side::Right,
        forall|c: Candidate| #[trigger] r.1@.contains(c) ==> candidates@.contains(c) && sides@[c.shape as int] != Side::Left,
        forall|c: Candidate| #[trigger] candidates@.contains(c) && sides@[c.shape as int] != Side::Right ==> r.0@.contains(c),
        forall|c: Candidate| #[trigger] candidates@.contains(c) && sides@[c.shape as int] != Side::Left ==> r.1@.contains(c),
        // multiplicity: every event routed once per side it belongs to
        r.0@.len() + r.1@.len() == candidates@.len() + count_both_events(
            candidates@,
            sides@,
            candidates@.len() as int,
        ),
        // at most one begin and one end per object and axis survive in
        // each child when the input has that property
        crate::candidate::events_unique(candidates@) ==> crate::candidate::events_unique(r.0@)
            && crate::candidate::events_unique(r.1@),
{
    let ghost cs = candidates@;
    let mut left_candidates: Candidates = Vec::new();
    let mut right_candidates: Candidates = Vec::new();
    let ghost mut lsrc: Seq<int> = Seq::empty();
    let ghost mut rsrc: Seq<int> = Seq::empty();
    let mut i: usize = 0;
    while i < candidates.len()
        invariant
            cs == candidates@,
            cands_match(cs, bounds),
            sides@.len() == bounds.len(),
            i <= cs.len(),
            lsrc.len() == left_candidates@.len(),
            rsrc.len() == right_candidates@.len(),
            forall|k: int|
                0 <= k < lsrc.len() ==> 0 <= #[trigger] lsrc[k] < i && left_candidates@[k] == cs[lsrc[k]],
            forall|k: int|
                0 <= k < rsrc.len() ==> 0 <= #[trigger] rsrc[k] < i && right_candidates@[k] == cs[rsrc[k]],
            forall|k1: int, k2: int| 0 <= k1 < k2 < lsrc.len() ==> #[trigger] lsrc[k1] < #[trigger] lsrc[k2],
            forall|k1: int, k2: int| 0 <= k1 < k2 < rsrc.len() ==> #[trigger] rsrc[k1] < #[trigger] rsrc[k2],
            forall|c: Candidate| #[trigger] left_candidates@.contains(c) ==> sides@[c.shape as int] != Side::Right,
            forall|c: Candidate| #[trigger] right_candidates@.contains(c) ==> sides@[c.shape as int] != Side::Left,
            forall|j: int|
                0 <= j < i && sides@[#[trigger] cs[j].shape as int] != Side::Right
                    ==> left_candidates@.contains(cs[j]),
            forall|j: int|
                0 <= j < i && sides@[#[trigger] cs[j].shape as int] != Side::Left
                    ==> right_candidates@.contains(cs[j]),
            left_candidates@.len() + right_candidates@.len() == i + count_both_events(
                cs,
                sides@,
                i as int,
            ),
        decreases cs.len() - i,
    {
        proof {
            assert(cs.contains(cs[i as int]));
        }
        let e = candidates[i];
        let ghost lpre = left_candidates@;
        let ghost rpre = right_candidates@;
        match sides[e.shape] {
            Side::Left => {
                left_candidates.push(e);
                proof {
                    lsrc = lsrc.push(i as int);
                    crate::candidate::lemma_push_contains(lpre, e);
                }
            },
            Side::Right => {
                right_candidates.push(e);
                proof {
                    rsrc = rsrc.push(i as int);
                    crate::candidate::lemma_push_contains(rpre, e);
                }
            },
            Side::Both => {
                right_candidates.push(e);
                left_candidates.push(e);
                proof {
                    lsrc = lsrc.push(i as int);
                    rsrc = rsrc.push(i as int);
                    crate::candidate::lemma_push_contains(lpre, e);
                    crate::candidate::lemma_push_contains(rpre, e);
                }
            },
        }
        i = i + 1;
    }
    proof {
        assert forall|k1: int, k2: int|
            0 <= k1 < k2 < left_candidates@.len() implies cand_le(
            #[trigger] left_candidates@[k1],
            #[trigger] left_candidates@[k2],
        ) by {
            assert(lsrc[k1] < lsrc[k2]);
            assert(cand_le(cs[lsrc[k1]], cs[lsrc[k2]]));
        }
        assert forall|k1: int, k2: int|
            0 <= k1 < k2 < right_candidates@.len() implies cand_le(
            #[trigger] right_candidates@[k1],
            #[trigger] right_candidates@[k2],
        ) by {
            assert(rsrc[k1] < rsrc[k2]);
            assert(cand_le(cs[rsrc[k1]], cs[rsrc[k2]]));
        }
        assert forall|c: Candidate| #[trigger] left_candidates@.contains(c) implies cs.contains(
            c,
        ) by {
            let k = choose|k: int| 0 <= k < left_candidates@.len() && left_candidates@[k] == c;
            assert(left_candidates@[k] == cs[lsrc[k]]);
        }
        assert forall|c: Candidate| #[trigger] right_candidates@.contains(c) implies cs.contains(
            c,
        ) by {
            let k = choose|k: int| 0 <= k < right_candidates@.len() && right_candidates@[k] == c;
            assert(right_candidates@[k] == cs[rsrc[k]]);
        }
        assert forall|c: Candidate|
            #[trigger] cs.contains(c) && sides@[c.shape as int] != Side::Right implies
            left_candidates@.contains(c) by {
            let j = choose|j: int| 0 <= j < cs.len() && cs[j] == c;
        }
        assert forall|c: Candidate|
            #[trigger] cs.contains(c) && sides@[c.shape as int] != Side::Left implies
            right_candidates@.contains(c) by {
            let j = choose|j: int| 0 <= j < cs.len() && cs[j] == c;
        }
        if crate::candidate::events_unique(cs) {
            assert forall|k1: int, k2: int|
                0 <= k1 < k2 < left_candidates@.len() implies !crate::candidate::same_event_key(
                #[trigger] left_candidates@[k1],
                #[trigger] left_candidates@[k2],
            ) by {
                assert(lsrc[k1] < lsrc[k2]);
                assert(left_candidates@[k1] == cs[lsrc[k1]]);
                assert(left_candidates@[k2] == cs[lsrc[k2]]);
            }
            assert forall|k1: int, k2: int|
                0 <= k1 < k2 < right_candidates@.len() implies !crate::candidate::same_event_key(
                #[trigger] right_candidates@[k1],
                #[trigger] right_candidates@[k2],
            ) by {
                assert(rsrc[k1] < rsrc[k2]);
                assert(right_candidates@[k1] == cs[rsrc[k1]]);
                assert(right_candidates@[k2] == cs[rsrc[k2]]);
            }
        }
    }
    (left_candidates, right_candidates)
}

/// Classify every object against the winning plane, then split the event
/// list into the two children's event lists. The classification is pinned
/// per object (`spec_side_of`), and every event of the input is routed by
/// its object's final mark: into the left list unless the object went
/// `Right`, into the right list unless it went `Left`, and so into both
/// when it straddles the plane.
pub fn classify(candidates: Candidates, best_index: usize, sides: &mut Vec<Side>, Ghost(bounds):
    Ghost<Seq<AABB>>) -> (r: (Candidates, Candidates))
    requires
        best_index < candidates@.len(),
        sorted_cands(candidates@),
        cands_match(candidates@, bounds),
        x_begin_closed(candidates@),
        crate::candidate::events_complete(candidates@),
        old(sides)@.len() == bounds.len(),
    ensures
        final(sides)@.len() == old(sides)@.len(),
        // the classification, per object of the list
        forall|s: usize|
            #[trigger] in_shapes(candidates@, s) ==> final(sides)@[s as int] == spec_side_of(
                candidates@,
                best_index as int,
                s,
            ),
        // objects without events here keep their entries
        forall|s: usize|
            (s as int) < old(sides)@.len() && !in_shapes(candidates@, s) ==> final(sides)@[
                s as int
            ] == old(sides)@[s as int],
        // event-level routing by the final marks, in both directions
        forall|c: Candidate|
            #[trigger] candidates@.contains(c) ==> (r.0@.contains(c) <==> final(sides)@[
                c.shape as int
            ] != Side::Right),
        forall|c: Candidate|
            #[trigger] candidates@.contains(c) ==> (r.1@.contains(c) <==> final(sides)@[
                c.shape as int
            ] != Side::Left),
        forall|c: Candidate| #[trigger] r.0@.contains(c) ==> candidates@.contains(c),
        forall|c: Candidate| #[trigger] r.1@.contains(c) ==> candidates@.contains(c),
        // no event lost or invented: each input event once per side it
        // belongs to
        r.0@.len() + r.1@.len() == candidates@.len() + count_both_events(
            candidates@,
            final(sides)@,
            candidates@.len() as int,
        ),
        sorted_cands(r.0@),
        sorted_cands(r.1@),
        cands_match(r.0@, bounds),
        cands_match(r.1@, bounds),
        x_begin_closed(r.0@),
        x_begin_closed(r.1@),
        crate::candidate::events_complete(r.0@),
        crate::candidate::events_complete(r.1@),
        crate::candidate::events_unique(candidates@) ==> crate::candidate::events_unique(r.0@)
            && crate::candidate::events_unique(r.1@),
        forall|s: usize| #[trigger] in_shapes(r.0@, s) ==> in_shapes(candidates@, s),
        forall|s: usize| #[trigger] in_shapes(r.1@, s) ==> in_shapes(candidates@, s),
        forall|s: usize|
            #[trigger] in_shapes(candidates@, s) ==> in_shapes(r.0@, s) || in_shapes(r.1@, s),
        forall|s: usize|
            #[trigger] in_shapes(candidates@, s) && !in_shapes(r.0@, s) ==> bounds[s as int].min_at(
                candidates@[best_index as int].plane.dimension,
            ) >= candidates@[best_index as int].plane.pos,
        forall|s: usize|
            #[trigger] in_shapes(candidates@, s) && !in_shapes(r.1@, s) ==> bounds[s as int].max_at(
                candidates@[best_index as int].plane.dimension,
            ) <= candidates@[best_index as int].plane.pos,
{
    let ghost cs = candidates@;
    let ghost d = cs[best_index as int].plane.dimension;
    classify_items(&candidates, best_index, sides, Ghost(bounds));
    proof {
        // every object of the list has events of the winning axis, so the
        // classification step reached each of them
        assert forall|s: usize| #[trigger] in_shapes(cs, s) implies has_dim_event_before(
            cs,
            s,
            d,
            cs.len() as int,
        ) by {
            assert(crate::candidate::has_begin_on(cs, s, d));
            let c = choose|c: Candidate|
                #[trigger] cs.contains(c) && c.shape == s && c.plane.dimension == d && c.start;
            let j = choose|j: int| 0 <= j < cs.len() && cs[j] == c;
            assert(dim_event_at(cs, j, s, d));
        }
        assert forall|s: usize|
            (s as int) < bounds.len() && !in_shapes(cs, s) implies !has_dim_event_before(
            cs,
            s,
            d,
            cs.len() as int,
        ) by {
            if has_dim_event_before(cs, s, d, cs.len() as int) {
                let j = choose|j: int| 0 <= j < cs.len() && #[trigger] dim_event_at(cs, j, s, d);
                assert(cs.contains(cs[j]));
            }
        }
    }
    let r = splicing_candidates(candidates, sides, Ghost(bounds));
    proof {
        let l = r.0@;
        let rt = r.1@;
        // every event of one object is routed the same way, so membership
        // and the per-axis closures carry over to both sub-lists
        assert forall|c: Candidate| #[trigger] l.contains(c) implies cand_matches(c, bounds) by {
            assert(cs.contains(c));
        }
        assert forall|c: Candidate| #[trigger] rt.contains(c) implies cand_matches(c, bounds) by {
            assert(cs.contains(c));
        }
        assert forall|s: usize| #[trigger] in_shapes(l, s) implies in_shapes(cs, s) by {
            let c = choose|c: Candidate| #[trigger] l.contains(c) && c.shape == s;
            assert(cs.contains(c));
        }
        assert forall|s: usize| #[trigger] in_shapes(rt, s) implies in_shapes(cs, s) by {
            let c = choose|c: Candidate| #[trigger] rt.contains(c) && c.shape == s;
            assert(cs.contains(c));
        }
        assert forall|s: usize| #[trigger] in_shapes(cs, s) implies in_shapes(l, s) || in_shapes(
            rt,
            s,
        ) by {
            let c = choose|c: Candidate| #[trigger] cs.contains(c) && c.shape == s;
            if sides@[c.shape as int] != Side::Right {
                assert(l.contains(c));
            } else {
                assert(rt.contains(c));
            }
        }
        assert forall|s: usize|
            #[trigger] in_shapes(cs, s) && !in_shapes(l, s) implies bounds[s as int].min_at(
            cs[best_index as int].plane.dimension,
        ) >= cs[best_index as int].plane.pos by {
            let c = choose|c: Candidate| #[trigger] cs.contains(c) && c.shape == s;
            if sides@[s as int] != Side::Right {
                assert(l.contains(c));
                assert(in_shapes(l, s));
            } else {
                assert(has_dim_event_before(cs, s, d, cs.len() as int));
            }
        }
        assert forall|s: usize|
            #[trigger] in_shapes(cs, s) && !in_shapes(rt, s) implies bounds[s as int].max_at(
            cs[best_index as int].plane.dimension,
        ) <= cs[best_index as int].plane.pos by {
            let c = choose|c: Candidate| #[trigger] cs.contains(c) && c.shape == s;
            if sides@[s as int] != Side::Left {
                assert(rt.contains(c));
                assert(in_shapes(rt, s));
            } else {
                assert(has_dim_event_before(cs, s, d, cs.len() as int));
            }
        }
        assert forall|s: usize| #[trigger] in_shapes(l, s) implies has_x_begin(l, s) by {
            assert(in_shapes(cs, s));
            assert(has_x_begin(cs, s));
            let c = choose|c: Candidate|
                #[trigger] cs.contains(c) && c.shape == s && c.start && c.plane.dimension
                    == Dimension::X;
            let w = choose|w: Candidate| #[trigger] l.contains(w) && w.shape == s;
            assert(sides@[s as int] != Side::Right);
            assert(l.contains(c));
        }
        assert forall|s: usize| #[trigger] in_shapes(rt, s) implies has_x_begin(rt, s) by {
            assert(in_shapes(cs, s));
            assert(has_x_begin(cs, s));
            let c = choose|c: Candidate|
                #[trigger] cs.contains(c) && c.shape == s && c.start && c.plane.dimension
                    == Dimension::X;
            let w = choose|w: Candidate| #[trigger] rt.contains(w) && w.shape == s;
            assert(sides@[s as int] != Side::Left);
            assert(rt.contains(c));
        }
        assert forall|s: usize, d2: Dimension| in_shapes(l, s) implies
            #[trigger] crate::candidate::has_begin_on(l, s, d2) by {
            assert(in_shapes(cs, s));
            assert(crate::candidate::has_begin_on(cs, s, d2));
            let c = choose|c: Candidate|
                #[trigger] cs.contains(c) && c.shape == s && c.plane.dimension == d2 && c.start;
            let w = choose|w: Candidate| #[trigger] l.contains(w) && w.shape == s;
            assert(sides@[s as int] != Side::Right);
            assert(l.contains(c));
        }
        assert forall|s: usize, d2: Dimension| in_shapes(l, s) implies
            #[trigger] crate::candidate::has_end_on(l, s, d2) by {
            assert(in_shapes(cs, s));
            assert(crate::candidate::has_end_on(cs, s, d2));
            let c = choose|c: Candidate|
                #[trigger] cs.contains(c) && c.shape == s && c.plane.dimension == d2 && !c.start;
            let w = choose|w: Candidate| #[trigger] l.contains(w) && w.shape == s;
            assert(sides@[s as int] != Side::Right);
            assert(l.contains(c));
        }
        assert forall|s: usize, d2: Dimension| in_shapes(rt, s) implies
            #[trigger] crate::candidate::has_begin_on(rt, s, d2) by {
            assert(in_shapes(cs, s));
            assert(crate::candidate::has_begin_on(cs, s, d2));
            let c = choose|c: Candidate|
                #[trigger] cs.contains(c) && c.shape == s && c.plane.dimension == d2 && c.start;
            let w = choose|w: Candidate| #[trigger] rt.contains(w) && w.shape == s;
            assert(sides@[s as int] != Side::Left);
            assert(rt.contains(c));
        }
        assert forall|s: usize, d2: Dimension| in_shapes(rt, s) implies
            #[trigger] crate::candidate::has_end_on(rt, s, d2) by {
            assert(in_shapes(cs, s));
            assert(crate::candidate::has_end_on(cs, s, d2));
            let c = choose|c: Candidate|
                #[trigger] cs.contains(c) && c.shape == s && c.plane.dimension == d2 && !c.start;
            let w = choose|w: Candidate| #[trigger] rt.contains(w) && w.shape == s;
            assert(sides@[s as int] != Side::Left);
            assert(rt.contains(c));
        }
    }
    r
}

/// The spatial index: the indexed object collection, the flat node arena,
/// and the tree depth (kept to pre-size traversal stacks).
pub struct KDTree<H: Hittable> {
    pub hittables: HittableList<H>,
    pub tree: Vec<KDTreeNode>,
    pub depth: usize,
}

impl<H: Hittable> KDTree<H> {
    /// Index a non-empty object collection: gather every object's bound
    /// and its six boundary events, sort the events into sweep order, and
    /// build the arena top-down. Building over an empty collection is a
    /// caller error, excluded by precondition.
    pub fn build(shapes: HittableList<H>) -> (t: KDTree<H>)
        requires
            shapes.objects@.len() > 0,
            all_wf(shapes.objects@),
            forall|i: int|
                0 <= i < shapes.objects@.len() ==> (#[trigger] shapes.objects@[i]).spec_bound().valid(),
            hits_in_bounds(shapes.objects@),
        ensures
            t.wf(),
            t.hittables == shapes,
            t.depth as int == depth_of(t.tree@, 0),
            // No object is lost: the union of the leaf object-index sets
            // over the whole tree is exactly the full input index set
            objset(t.tree@, 0) == Set::new(|s: usize| (s as int) < shapes.objects@.len()),
            // a single object gives a tree of exactly one leaf, whatever
            // the cost threshold: every candidate plane only touches the
            // scene box's faces, so no split is ever worthwhile
            shapes.objects@.len() == 1 ==> t.tree@.len() == 1 && t.tree@[0] is Leaf,
            // the root decision, over the scene's event list: there is a
            // sweep-ordered list holding exactly one begin and one end per
            // object and axis, all on the objects' boxes, such that the
            // root is a leaf exactly when no plane of the list beats brute
            // force, and otherwise splits the scene box at the list's
            // first cheapest plane
            exists|cs: Seq<Candidate>|
                {
                    &&& #[trigger] sorted_cands(cs)
                    &&& cands_match(cs, bounds_of(shapes.objects@))
                    &&& crate::candidate::events_complete(cs)
                    &&& crate::candidate::events_unique(cs)
                    &&& forall|s: usize|
                        #[trigger] in_shapes(cs, s) <==> (s as int) < shapes.objects@.len()
                    &&& (t.tree@[0] is Leaf <==> forall|j: int|
                        0 <= j < cs.len() ==> cost_exceeds_leaf(
                            #[trigger] sweep_cost_at(
                                cs,
                                j,
                                scene_bound(shapes.objects@),
                                shapes.objects@.len() as int,
                            ),
                            scene_bound(shapes.objects@),
                            shapes.objects@.len() as int,
                        ))
                    &&& (t.tree@[0] matches KDTreeNode::Node { l_space, r_space, .. }
                        ==> exists|bi: int|
                        #[trigger] is_first_min_cost(
                            cs,
                            bi,
                            scene_bound(shapes.objects@),
                            shapes.objects@.len() as int,
                        ) && l_space == spec_split_left(scene_bound(shapes.objects@), cs[bi].plane)
                            && r_space == spec_split_right(
                            scene_bound(shapes.objects@),
                            cs[bi].plane,
                        ))
                },
    {
        let ghost objects = shapes.objects@;
        let ghost bounds = bounds_of(objects);
        let nb_shapes = shapes.objects.len();
        let mut space: AABB = Default::default();
        let mut candidates: Candidates = Vec::new();
        proof {
            assert(bounds.len() == objects.len());
            assert(objects.subrange(0, 0).len() == 0);
            assert(space == scene_bound(objects.subrange(0, 0)));
        }
        let mut index: usize = 0;
        while index < shapes.objects.len()
            invariant
                objects == shapes.objects@,
                bounds == bounds_of(objects),
                nb_shapes == objects.len(),
                all_wf(objects),
                forall|i: int| 0 <= i < objects.len() ==> (#[trigger] objects[i]).spec_bound().valid(),
                index <= objects.len(),
                space == scene_bound(objects.subrange(0, index as int)),
                index > 0 ==> space.valid(),
                forall|i: int|
                    0 <= i < index ==> crate::aabb::contains_box(space, #[trigger] bounds[i]),
                cands_match(candidates@, bounds),
                forall|s: usize| #[trigger] in_shapes(candidates@, s) <==> (s as int) < index,
                forall|s: usize| (s as int) < index ==> #[trigger] has_x_begin(candidates@, s),
                forall|s: usize, d2: Dimension|
                    (s as int) < index ==> #[trigger] crate::candidate::has_begin_on(
                        candidates@,
                        s,
                        d2,
                    ),
                forall|s: usize, d2: Dimension|
                    (s as int) < index ==> #[trigger] crate::candidate::has_end_on(
                        candidates@,
                        s,
                        d2,
                    ),
                crate::candidate::events_unique(candidates@),
            decreases objects.len() - index,
        {
            let bb = shapes.objects[index].bound();
            proof {
                assert(bounds[index as int] == bb);
            }
            let mut news = Candidate::gen_candidates(index, &bb);
            let ghost pre_cands = candidates@;
            let ghost gen = news@;
            candidates.extend_from_slice(news.as_slice());
            proof {
                let now = candidates@;
                assert(now == pre_cands + gen);
                assert forall|c: Candidate| #[trigger] now.contains(c) implies pre_cands.contains(
                    c,
                ) || gen.contains(c) by {
                    let k = choose|k: int| 0 <= k < now.len() && now[k] == c;
                    if k < pre_cands.len() {
                        assert(pre_cands[k] == c);
                    } else {
                        assert(gen[k - pre_cands.len()] == c);
                    }
                }
                assert forall|c: Candidate| pre_cands.contains(c) || gen.contains(c) implies
                    #[trigger] now.contains(c) by {
                    if pre_cands.contains(c) {
                        let k = choose|k: int| 0 <= k < pre_cands.len() && pre_cands[k] == c;
                        assert(now[k] == c);
                    } else {
                        let k = choose|k: int| 0 <= k < gen.len() && gen[k] == c;
                        assert(now[pre_cands.len() + k] == c);
                    }
                }
                assert forall|c: Candidate| #[trigger] gen.contains(c) implies cand_matches(
                    c,
                    bounds,
                ) && c.shape == index by {
                    let k = choose|k: int| 0 <= k < gen.len() && gen[k] == c;
                    if k == 0 {
                    } else if k == 1 {
                    } else if k == 2 {
                    } else if k == 3 {
                    } else if k == 4 {
                    } else {
                        assert(k == 5);
                    }
                }
                assert forall|c: Candidate| #[trigger] now.contains(c) implies cand_matches(
                    c,
                    bounds,
                ) by {}
                assert forall|s: usize| #[trigger] in_shapes(now, s) implies (s as int) < index
                    + 1 by {
                    let c = choose|c: Candidate| #[trigger] now.contains(c) && c.shape == s;
                    if pre_cands.contains(c) {
                        assert(in_shapes(pre_cands, s));
                    }
                }
                assert forall|s: usize| (s as int) < index + 1 implies #[trigger] in_shapes(
                    now,
                    s,
                ) by {
                    if (s as int) < index {
                        assert(in_shapes(pre_cands, s));
                        let c = choose|c: Candidate|
                            #[trigger] pre_cands.contains(c) && c.shape == s;
                        assert(now.contains(c));
                    } else {
                        assert(gen[0].shape == index);
                        assert(gen.contains(gen[0]));
                        assert(now.contains(gen[0]));
                    }
                }
                assert forall|s: usize| (s as int) < index + 1 implies #[trigger] has_x_begin(
                    now,
                    s,
                ) by {
                    if (s as int) < index {
                        assert(has_x_begin(pre_cands, s));
                        let c = choose|c: Candidate|
                            #[trigger] pre_cands.contains(c) && c.shape == s && c.start
                                && c.plane.dimension == Dimension::X;
                        assert(now.contains(c));
                    } else {
                        assert(gen.contains(gen[0]));
                        assert(now.contains(gen[0]));
                        assert(gen[0].shape == s && gen[0].start && gen[0].plane.dimension
                            == Dimension::X);
                    }
                }
                assert forall|s: usize, d2: Dimension|
                    (s as int) < index + 1 implies #[trigger] crate::candidate::has_begin_on(
                    now,
                    s,
                    d2,
                ) by {
                    if (s as int) < index {
                        assert(crate::candidate::has_begin_on(pre_cands, s, d2));
                        let c = choose|c: Candidate|
                            #[trigger] pre_cands.contains(c) && c.shape == s && c.plane.dimension
                                == d2 && c.start;
                        assert(now.contains(c));
                    } else {
                        let g = match d2 {
                            Dimension::X => gen[0],
                            Dimension::Y => gen[2],
                            Dimension::Z => gen[4],
                        };
                        assert(gen.contains(g));
                        assert(now.contains(g));
                        assert(g.shape == s && g.plane.dimension == d2 && g.start);
                    }
                }
                assert forall|s: usize, d2: Dimension|
                    (s as int) < index + 1 implies #[trigger] crate::candidate::has_end_on(
                    now,
                    s,
                    d2,
                ) by {
                    if (s as int) < index {
                        assert(crate::candidate::has_end_on(pre_cands, s, d2));
                        let c = choose|c: Candidate|
                            #[trigger] pre_cands.contains(c) && c.shape == s && c.plane.dimension
                                == d2 && !c.start;
                        assert(now.contains(c));
                    } else {
                        let g = match d2 {
                            Dimension::X => gen[1],
                            Dimension::Y => gen[3],
                            Dimension::Z => gen[5],
                        };
                        assert(gen.contains(g));
                        assert(now.contains(g));
                        assert(g.shape == s && g.plane.dimension == d2 && !g.start);
                    }
                }
                assert forall|j: int, k: int|
                    0 <= j < k < now.len() implies !crate::candidate::same_event_key(
                    #[trigger] now[j],
                    #[trigger] now[k],
                ) by {
                    if k < pre_cands.len() {
                        assert(now[j] == pre_cands[j] && now[k] == pre_cands[k]);
                    } else if j >= pre_cands.len() {
                        // within one object's six events, axis or kind differs
                        assert(now[j] == gen[j - pre_cands.len()]);
                        assert(now[k] == gen[k - pre_cands.len()]);
                    } else {
                        // an old event's object is older than the new object
                        assert(now[j] == pre_cands[j]);
                        assert(pre_cands.contains(pre_cands[j]));
                        assert(in_shapes(pre_cands, pre_cands[j].shape));
                        assert((pre_cands[j].shape as int) < index);
                        assert(now[k] == gen[k - pre_cands.len()]);
                        assert(gen[k - pre_cands.len()].shape == index);
                    }
                }
            }
            let ghost pre_space = space;
            space.merge(&bb);
            proof {
                let sub1 = objects.subrange(0, index as int + 1);
                assert(sub1.drop_last() =~= objects.subrange(0, index as int));
                assert(sub1.last() == objects[index as int]);
                assert(space == scene_bound(sub1));
                crate::aabb::lemma_merge_contains(pre_space, bb);
                assert forall|i: int|
                    0 <= i < index + 1 implies crate::aabb::contains_box(
                    space,
                    #[trigger] bounds[i],
                ) by {
                    if i < index {
                        crate::aabb::lemma_contains_trans(space, pre_space, bounds[i]);
                    }
                }
                if index == 0 {
                    crate::aabb::lemma_merge_empty(bb);
                } else {
                    crate::aabb::lemma_merge_valid(pre_space, bb);
                }
            }
            index = index + 1;
        }
        proof {
            assert(objects.subrange(0, objects.len() as int) =~= objects);
        }
        // Sorting, as the sweep order drives everything after this point
        let ghost presort = candidates@;
        sort_candidates(&mut candidates);
        proof {
            assert forall|s: usize| #[trigger] in_shapes(presort, s) implies has_x_begin(
                presort,
                s,
            ) by {}
            assert forall|s: usize, d2: Dimension| in_shapes(presort, s) implies
                #[trigger] crate::candidate::has_begin_on(presort, s, d2) by {}
            assert forall|s: usize, d2: Dimension| in_shapes(presort, s) implies
                #[trigger] crate::candidate::has_end_on(presort, s, d2) by {}
            crate::candidate::lemma_perm_preserves(presort, candidates@, bounds);
            crate::candidate::lemma_perm_preserves_unique(presort, candidates@, bounds);
            assert forall|s: usize| #[trigger] in_shapes(candidates@, s) <==> (s as int)
                < objects.len() by {
                assert(shapes_of(presort).contains(s) == in_shapes(presort, s));
                assert(shapes_of(candidates@).contains(s) == in_shapes(candidates@, s));
                assert(shapes_of(presort) == shapes_of(candidates@));
            }
        }
        let mut sides: Vec<Side> = vec![Side::Both; nb_shapes];
        let mut tree: Vec<KDTreeNode> = Vec::new();
        let ghost sorted_cs = candidates@;
        let depth = build_tree(&space, candidates, nb_shapes, &mut sides, &mut tree, Ghost(bounds));
        proof {
            if objects.len() == 1 {
                // the scene box is the lone object's box, so each event's
                // plane coincides with one of its faces and cuts nothing
                assert(objects.subrange(0, 1).drop_last() =~= objects.subrange(0, 0));
                assert(objects.subrange(0, 1) =~= objects);
                crate::aabb::lemma_merge_empty(bounds[0]);
                assert(space == bounds[0]);
                assert forall|j: int|
                    0 <= j < sorted_cs.len() implies cost_exceeds_leaf(
                    #[trigger] sweep_cost_at(sorted_cs, j, space, nb_shapes as int),
                    space,
                    nb_shapes as int,
                ) by {
                    assert(sorted_cs.contains(sorted_cs[j]));
                    assert(cand_matches(sorted_cs[j], bounds));
                    assert(in_shapes(sorted_cs, sorted_cs[j].shape));
                    assert(sorted_cs[j].shape == 0);
                    crate::plane::lemma_face_plane_not_cutting(sorted_cs[j].plane, space);
                    assert(spec_cost(
                        sorted_cs[j].plane,
                        space,
                        sweep_n_left(sorted_cs, j),
                        sweep_n_right(sorted_cs, j, nb_shapes as int),
                    ) is None);
                }
                assert(tree@[0] is Leaf);
                assert(tree@.len() == 1);
            }
            assert(objset(tree@, 0) =~= Set::new(|s: usize| (s as int) < objects.len())) by {
                assert forall|s: usize| #[trigger] objset(tree@, 0).contains(s) implies (s as int)
                    < objects.len() by {
                    assert(shapes_of(presort).contains(s));
                }
                assert forall|s: usize| (s as int) < objects.len() implies #[trigger] objset(
                    tree@,
                    0,
                ).contains(s) by {
                    assert(in_shapes(presort, s));
                    assert(shapes_of(presort).contains(s));
                }
            }
        }
        proof {
            assert(sorted_cands(sorted_cs) && cands_match(sorted_cs, bounds)
                && crate::candidate::events_complete(sorted_cs) && crate::candidate::events_unique(
                sorted_cs,
            ) && (forall|s: usize|
                #[trigger] in_shapes(sorted_cs, s) <==> (s as int) < objects.len()) && (tree@[0]
                is Leaf <==> forall|j: int|
                0 <= j < sorted_cs.len() ==> cost_exceeds_leaf(
                    #[trigger] sweep_cost_at(sorted_cs, j, space, nb_shapes as int),
                    space,
                    nb_shapes as int,
                )) && (tree@[0] matches KDTreeNode::Node { l_space, r_space, .. } ==> exists|
                bi: int,
            |
                #[trigger] is_first_min_cost(sorted_cs, bi, space, nb_shapes as int) && l_space
                    == spec_split_left(space, sorted_cs[bi].plane) && r_space == spec_split_right(
                    space,
                    sorted_cs[bi].plane,
                )));
        }
        KDTree { hittables: shapes, tree, depth }
    }

    /// Gather, with an explicit stack, the indices of every object held by
    /// a leaf whose sub-box the ray meets: the candidate set that the exact
    /// scan then resolves. Sorted and deduplicated, as an object straddling
    /// splits can sit in several leaves.
    fn prune(&self, r: &Ray) -> (result: Vec<usize>)
        requires
            self.wf(),
            r.wf(),
        ensures
            forall|x: usize| #[trigger] result@.contains(x) <==> visit(self.tree@, 0, *r).contains(
                x,
            ),
            forall|k: int|
                0 <= k < result@.len() ==> (#[trigger] result@[k] as int)
                    < self.hittables.objects@.len(),
    {
        let ghost nodes = self.tree@;
        let ghost objects = self.hittables.objects@;
        let ghost bounds = bounds_of(objects);
        let ghost rspace = scene_bound(objects);
        let mut result: Vec<usize> = Vec::new();
        let mut stack: Vec<usize> = Vec::new();
        stack.push(0);
        let ghost mut gspaces: Seq<AABB> = seq![rspace];
        let ghost mut gends: Seq<int> = seq![nodes.len() as int];
        proof {
            assert(stack@.drop_last() =~= Seq::<usize>::empty());
            assert(stack@.last() == 0usize);
            assert(visit_union(nodes, stack@, *r) == visit_union(
                nodes,
                stack@.drop_last(),
                *r,
            ) + visit(nodes, 0, *r));
            assert(visit_union(nodes, stack@.drop_last(), *r) =~= Set::<usize>::empty());
            assert(seq_set(result@) + visit_union(nodes, stack@, *r) =~= visit(nodes, 0, *r));
        }
        while stack.len() > 0
            invariant
                nodes == self.tree@,
                r.wf(),
                gspaces.len() == stack@.len(),
                gends.len() == stack@.len(),
                forall|k: int|
                    0 <= k < stack@.len() ==> wf_from(
                        nodes,
                        #[trigger] stack@[k] as int,
                        gends[k],
                        gspaces[k],
                        bounds,
                    ),
                seq_set(result@) + visit_union(nodes, stack@, *r) == visit(nodes, 0, *r),
            decreases stack_measure(stack@, gends),
        {
            let ghost pre_stack = stack@;
            let ghost pre_sp = gspaces;
            let ghost pre_en = gends;
            let ghost pre_res = result@;
            proof {
                assert forall|k: int| 0 <= k < pre_stack.len() implies (#[trigger] pre_stack[k] as int)
                    < pre_en[k] by {
                    assert(wf_from(nodes, pre_stack[k] as int, pre_en[k], pre_sp[k], bounds));
                }
                lemma_stack_measure_nonneg(pre_stack, pre_en);
            }
            let node = match stack.pop() {
                Some(n) => n,
                None => {
                    proof {
                        assert(false);
                    }
                    0
                },
            };
            let ghost base = stack@;
            let ghost nspace = pre_sp.last();
            let ghost nend = pre_en.last();
            proof {
                gspaces = gspaces.drop_last();
                gends = gends.drop_last();
                assert(base =~= pre_stack.drop_last());
                assert(node == pre_stack.last());
                assert(wf_from(nodes, node as int, nend, nspace, bounds));
            }
            match &self.tree[node] {
                KDTreeNode::Leaf { shapes } => {
                    let mut k2: usize = 0;
                    while k2 < shapes.len()
                        invariant
                            k2 <= shapes@.len(),
                            forall|x: usize|
                                #[trigger] result@.contains(x) <==> pre_res.contains(x)
                                    || shapes@.subrange(0, k2 as int).contains(x),
                        decreases shapes@.len() - k2,
                    {
                        let ghost rpre = result@;
                        result.push(shapes[k2]);
                        proof {
                            lemma_push_contains_usize(rpre, shapes@[k2 as int]);
                            lemma_sub_contains_step(shapes@, k2 as int);
                        }
                        k2 = k2 + 1;
                    }
                    proof {
                        assert(shapes@.subrange(0, shapes@.len() as int) =~= shapes@);
                        assert(visit(nodes, node as int, *r) =~= Set::new(
                            |s: usize| shapes@.contains(s),
                        ));
                        assert(stack@ == base);
                        assert(visit_union(nodes, pre_stack, *r) == visit_union(nodes, base, *r)
                            + visit(nodes, node as int, *r));
                        assert(seq_set(result@) + visit_union(nodes, stack@, *r) =~= visit(
                            nodes,
                            0,
                            *r,
                        ));
                        assert(stack_measure(stack@, gends) == stack_measure(pre_stack, pre_en) - (
                        nend - node as int));
                    }
                },
                KDTreeNode::Node { l_child, l_space, r_child, r_space } => {
                    proof {
                        assert(wf_from(nodes, *l_child as int, *r_child as int, *l_space, bounds));
                        assert(wf_from(nodes, *r_child as int, nend, *r_space, bounds));
                    }
                    let hit_r = r.intersect_aabb(r_space);
                    if hit_r {
                        stack.push(*r_child);
                        proof {
                            gspaces = gspaces.push(*r_space);
                            gends = gends.push(nend);
                        }
                    }
                    let hit_l = r.intersect_aabb(l_space);
                    if hit_l {
                        stack.push(*l_child);
                        proof {
                            gspaces = gspaces.push(*l_space);
                            gends = gends.push(*r_child as int);
                        }
                    }
                    proof {
                        let vl = if ray_hits_box(*r, *l_space) {
                            visit(nodes, *l_child as int, *r)
                        } else {
                            Set::<usize>::empty()
                        };
                        let vr = if ray_hits_box(*r, *r_space) {
                            visit(nodes, *r_child as int, *r)
                        } else {
                            Set::<usize>::empty()
                        };
                        assert(visit(nodes, node as int, *r) == vl + vr);
                        assert(visit_union(nodes, pre_stack, *r) == visit_union(nodes, base, *r)
                            + visit(nodes, node as int, *r));
                        let m_base = stack_measure(base, pre_en.drop_last());
                        assert(stack_measure(pre_stack, pre_en) == m_base + (nend - node as int));
                        if hit_r && hit_l {
                            assert(stack@ == base.push(*r_child).push(*l_child));
                            assert(stack@.drop_last() =~= base.push(*r_child));
                            assert(gends.drop_last() =~= pre_en.drop_last().push(nend));
                            assert(visit_union(nodes, stack@, *r) == visit_union(
                                nodes,
                                base.push(*r_child),
                                *r,
                            ) + visit(nodes, *l_child as int, *r));
                            assert(base.push(*r_child).drop_last() =~= base);
                            assert((pre_en.drop_last().push(nend)).drop_last() =~= pre_en.drop_last());
                            assert(stack_measure(base.push(*r_child), pre_en.drop_last().push(nend))
                                == m_base + (nend - *r_child as int));
                            assert(visit_union(nodes, base.push(*r_child), *r) == visit_union(
                                nodes,
                                base,
                                *r,
                            ) + visit(nodes, *r_child as int, *r));
                            assert(stack_measure(stack@, gends) == m_base + (nend
                                - *r_child as int) + (*r_child as int - *l_child as int));
                        } else if hit_r {
                            assert(stack@ == base.push(*r_child));
                            assert(stack@.drop_last() =~= base);
                            assert(gends.drop_last() =~= pre_en.drop_last());
                            assert(visit_union(nodes, stack@, *r) == visit_union(nodes, base, *r)
                                + visit(nodes, *r_child as int, *r));
                            assert(stack_measure(stack@, gends) == m_base + (nend
                                - *r_child as int));
                        } else if hit_l {
                            assert(stack@ == base.push(*l_child));
                            assert(stack@.drop_last() =~= base);
                            assert(gends.drop_last() =~= pre_en.drop_last());
                            assert(visit_union(nodes, stack@, *r) == visit_union(nodes, base, *r)
                                + visit(nodes, *l_child as int, *r));
                            assert(stack_measure(stack@, gends) == m_base + (*r_child as int
                                - *l_child as int));
                        } else {
                            assert(stack@ == base);
                            assert(stack_measure(stack@, gends) == m_base);
                        }
                        assert(seq_set(result@) + visit_union(nodes, stack@, *r) =~= visit(
                            nodes,
                            0,
                            *r,
                        ));
                        // the children's slot ranges together are one slot
                        // fewer than the popped subtree's
                        assert(stack_measure(stack@, gends) < stack_measure(pre_stack, pre_en));
                    }
                },
            }
            proof {
                assert forall|k: int|
                    0 <= k < stack@.len() implies (#[trigger] stack@[k] as int) < gends[k] by {
                    assert(wf_from(nodes, stack@[k] as int, gends[k], gspaces[k], bounds));
                }
                lemma_stack_measure_nonneg(stack@, gends);
            }
        }
        proof {
            assert(visit_union(nodes, stack@, *r) =~= Set::<usize>::empty());
            assert(seq_set(result@) =~= visit(nodes, 0, *r));
            lemma_visit_in_objset(nodes, 0, nodes.len() as int, rspace, bounds, *r);
            assert forall|k: int|
                0 <= k < result@.len() implies (#[trigger] result@[k] as int)
                < objects.len() by {
                assert(result@.contains(result@[k]));
                assert(visit(nodes, 0, *r).contains(result@[k]));
                assert(objset(nodes, 0).contains(result@[k]));
            }
        }
        result
    }
}

impl<H: Hittable> Hittable for KDTree<H> {
    /// The tree hits wherever any of its objects hits: it answers queries
    /// for the same scene as the plain linear scan over all objects.
    open spec fn spec_hits(&self, r: Ray, tn: int, td: int) -> bool {
        set_hits(self.hittables.objects@, r, tn, td)
    }

    /// The tree has no meaningful bound of its own; `bound` returns the
    /// empty box and callers must not rely on it.
    open spec fn spec_bound(&self) -> AABB {
        crate::aabb::spec_empty()
    }

    /// A well-built index: the arena is a well-formed subtree of the scene
    /// bound covering exactly the input index set, the objects are
    /// well-formed with valid bounds inside the scene bound, and each
    /// object's hits lie inside its own bound.
    open spec fn wf(&self) -> bool {
        let objects = self.hittables.objects@;
        let bounds = bounds_of(objects);
        &&& objects.len() > 0
        &&& all_wf(objects)
        &&& forall|i: int| 0 <= i < bounds.len() ==> (#[trigger] bounds[i]).valid()
        &&& forall|i: int|
            0 <= i < bounds.len() ==> crate::aabb::contains_box(
                scene_bound(objects),
                #[trigger] bounds[i],
            )
        &&& hits_in_bounds(objects)
        &&& self.tree@.len() > 0
        &&& wf_from(self.tree@, 0, self.tree@.len() as int, scene_bound(objects), bounds)
        &&& objset(self.tree@, 0) == Set::new(|s: usize| (s as int) < objects.len())
    }

    /// Nearest hit: prune with the tree, then resolve the candidates by an
    /// exact scan. The answer is pinned to the closest hit over the whole
    /// collection, exactly as for the brute-force linear scan.
    fn hit(&self, r: &Ray, t_min: Rat, t_max: Rat) -> (res: Option<HitRecord>)
        ensures
            (res matches Some(rec) ==> is_closest_hit(
                self.hittables.objects@,
                *r,
                t_min,
                t_max,
                rec.t,
            )),
            (res is None ==> no_set_hit_in(self.hittables.objects@, *r, t_min, t_max)),
    {
        let ghost objects = self.hittables.objects@;
        let ghost bounds = bounds_of(objects);
        let ghost rspace = scene_bound(objects);
        let n = self.hittables.objects.len();
        let mut result = self.prune(r);
        let ghost v0 = result@;
        sort_indices(&mut result);
        let ghost v1 = result@;
        dedup_indices(&mut result);
        let ghost idxs = result@;
        proof {
            assert forall|x: usize| #[trigger] idxs.contains(x) <==> visit(
                self.tree@,
                0,
                *r,
            ).contains(x) by {
                assert(v1.contains(x) <==> v0.contains(x));
                assert(idxs.contains(x) <==> v1.contains(x));
            }
            assert forall|m: int| 0 <= m < idxs.len() implies (#[trigger] idxs[m] as int) < n by {
                assert(idxs.contains(idxs[m]));
                assert(v0.contains(idxs[m]));
                let k0 = choose|k0: int| 0 <= k0 < v0.len() && v0[k0] == idxs[m];
            }
        }
        let mut tmp_record: Option<HitRecord> = None;
        let mut closest = t_max;
        let mut k: usize = 0;
        while k < result.len()
            invariant
                idxs == result@,
                objects == self.hittables.objects@,
                n == objects.len(),
                all_wf(objects),
                r.wf(),
                t_min.wf(),
                t_max.wf(),
                t_min.spec_pos(),
                forall|m: int| 0 <= m < idxs.len() ==> (#[trigger] idxs[m] as int) < n,
                k <= idxs.len(),
                closest.wf(),
                tmp_record is None ==> closest == t_max,
                tmp_record matches Some(rec) ==> rec.t == closest && t_min.spec_le(closest)
                    && closest.spec_le(t_max) && set_hits(
                    objects,
                    *r,
                    closest.num as int,
                    closest.den as int,
                ),
                forall|tn: int, td: int|
                    td > 0 && crate::math::rat_le(t_min.num as int, t_min.den as int, tn, td)
                        && crate::math::rat_lt(tn, td, closest.num as int, closest.den as int)
                        ==> !#[trigger] subset_hits(objects, idxs.subrange(0, k as int), *r, tn, td),
                tmp_record is None ==> forall|tn: int, td: int|
                    td > 0 && crate::math::rat_le(t_min.num as int, t_min.den as int, tn, td)
                        && crate::math::rat_le(tn, td, closest.num as int, closest.den as int)
                        ==> !#[trigger] subset_hits(objects, idxs.subrange(0, k as int), *r, tn, td),
            decreases idxs.len() - k,
        {
            let ghost pre = idxs.subrange(0, k as int);
            proof {
                assert(idxs[k as int] == result@[k as int]);
            }
            let idx = result[k];
            let rec = self.hittables.objects[idx].hit(r, t_min, closest);
            proof {
                assert(idxs.subrange(0, k as int + 1) =~= pre.push(idxs[k as int]));
            }
            match rec {
                Some(hit) => {
                    proof {
                        let post = idxs.subrange(0, k as int + 1);
                        assert(objects[idx as int].spec_hits(*r, hit.t.num as int, hit.t.den as int));
                        assert(set_hits(objects, *r, hit.t.num as int, hit.t.den as int));
                        assert forall|tn: int, td: int|
                            td > 0 && crate::math::rat_le(
                                t_min.num as int,
                                t_min.den as int,
                                tn,
                                td,
                            ) && crate::math::rat_lt(tn, td, hit.t.num as int, hit.t.den as int)
                            implies !#[trigger] subset_hits(objects, post, *r, tn, td) by {
                            crate::math::lemma_rat_lt_le_trans(
                                tn,
                                td,
                                hit.t.num as int,
                                hit.t.den as int,
                                closest.num as int,
                                closest.den as int,
                            );
                            assert(!subset_hits(objects, pre, *r, tn, td));
                            if subset_hits(objects, post, *r, tn, td) {
                                let m = choose|m: int|
                                    0 <= m < post.len() && #[trigger] objects[post[m] as int].spec_hits(
                                        *r,
                                        tn,
                                        td,
                                    );
                                if m < k {
                                    assert(objects[pre[m] as int].spec_hits(*r, tn, td));
                                }
                            }
                        }
                        crate::math::lemma_rat_le_trans(
                            hit.t.num as int,
                            hit.t.den as int,
                            closest.num as int,
                            closest.den as int,
                            t_max.num as int,
                            t_max.den as int,
                        );
                    }
                    closest = hit.t;
                    tmp_record = Some(hit);
                },
                None => {
                    proof {
                        let post = idxs.subrange(0, k as int + 1);
                        assert forall|tn: int, td: int|
                            td > 0 && crate::math::rat_le(
                                t_min.num as int,
                                t_min.den as int,
                                tn,
                                td,
                            ) && crate::math::rat_lt(tn, td, closest.num as int, closest.den as int)
                            implies !#[trigger] subset_hits(objects, post, *r, tn, td) by {
                            assert(!subset_hits(objects, pre, *r, tn, td));
                            if subset_hits(objects, post, *r, tn, td) {
                                let m = choose|m: int|
                                    0 <= m < post.len() && #[trigger] objects[post[m] as int].spec_hits(
                                        *r,
                                        tn,
                                        td,
                                    );
                                if m < k {
                                    assert(objects[pre[m] as int].spec_hits(*r, tn, td));
                                } else {
                                    assert(objects[idx as int].spec_hits(*r, tn, td));
                                }
                            }
                        }
                        if tmp_record is None {
                            assert forall|tn: int, td: int|
                                td > 0 && crate::math::rat_le(
                                    t_min.num as int,
                                    t_min.den as int,
                                    tn,
                                    td,
                                ) && crate::math::rat_le(
                                    tn,
                                    td,
                                    closest.num as int,
                                    closest.den as int,
                                ) implies !#[trigger] subset_hits(objects, post, *r, tn, td) by {
                                assert(!subset_hits(objects, pre, *r, tn, td));
                                if subset_hits(objects, post, *r, tn, td) {
                                    let m = choose|m: int|
                                        0 <= m < post.len() && #[trigger] objects[post[m] as int].spec_hits(
                                            *r,
                                            tn,
                                            td,
                                        );
                                    if m < k {
                                        assert(objects[pre[m] as int].spec_hits(*r, tn, td));
                                    } else {
                                        assert(objects[idx as int].spec_hits(*r, tn, td));
                                    }
                                }
                            }
                        }
                    }
                },
            }
            k = k + 1;
        }
        proof {
            assert(idxs.subrange(0, idxs.len() as int) =~= idxs);
            // a hit missed by every candidate is missed by every object:
            // any hit in range would have put its object among the candidates
            assert forall|tn: int, td: int|
                td > 0 && crate::math::rat_le(t_min.num as int, t_min.den as int, tn, td)
                    && crate::math::rat_le(tn, td, closest.num as int, closest.den as int)
                    && !subset_hits(objects, idxs, *r, tn, td) implies !#[trigger] set_hits(
                objects,
                *r,
                tn,
                td,
            ) by {
                if set_hits(objects, *r, tn, td) {
                    let i = choose|i: int|
                        0 <= i < objects.len() && #[trigger] objects[i].spec_hits(*r, tn, td);
                    lemma_rat_pos_le_kd(tn, td, t_min.num as int, t_min.den as int);
                    assert(on_ray_in_box(*r, tn, td, bounds[i]));
                    crate::ray::lemma_on_ray_in_contained_box(*r, tn, td, bounds[i], rspace);
                    assert(objset(self.tree@, 0).contains(i as usize));
                    lemma_visit_complete(
                        self.tree@,
                        0,
                        self.tree@.len() as int,
                        rspace,
                        bounds,
                        *r,
                        i as usize,
                        tn,
                        td,
                    );
                    assert(idxs.contains(i as usize));
                    let m = choose|m: int| 0 <= m < idxs.len() && idxs[m] == i as usize;
                    assert(objects[idxs[m] as int].spec_hits(*r, tn, td));
                    assert(subset_hits(objects, idxs, *r, tn, td));
                }
            }
            match tmp_record {
                Some(rec) => {
                    assert(self.spec_hits(*r, rec.t.num as int, rec.t.den as int));
                    assert forall|tn: int, td: int|
                        td > 0 && crate::math::rat_le(t_min.num as int, t_min.den as int, tn, td)
                            && crate::math::rat_lt(tn, td, rec.t.num as int, rec.t.den as int)
                        implies !(#[trigger] set_hits(objects, *r, tn, td)) by {
                        assert(!subset_hits(objects, idxs.subrange(0, idxs.len() as int), *r, tn, td));
                        assert(!subset_hits(objects, idxs, *r, tn, td));
                    }
                    assert forall|tn: int, td: int|
                        td > 0 && crate::math::rat_le(t_min.num as int, t_min.den as int, tn, td)
                            && crate::math::rat_lt(tn, td, rec.t.num as int, rec.t.den as int)
                        implies !(#[trigger] self.spec_hits(*r, tn, td)) by {
                        assert(!set_hits(objects, *r, tn, td));
                    }
                    assert(is_closest_hit(objects, *r, t_min, t_max, rec.t));
                },
                None => {
                    assert forall|tn: int, td: int|
                        td > 0 && crate::math::rat_le(t_min.num as int, t_min.den as int, tn, td)
                            && crate::math::rat_le(tn, td, t_max.num as int, t_max.den as int)
                        implies !(#[trigger] set_hits(objects, *r, tn, td)) by {
                        assert(!subset_hits(objects, idxs.subrange(0, idxs.len() as int), *r, tn, td));
                        assert(!subset_hits(objects, idxs, *r, tn, td));
                    }
                    assert forall|tn: int, td: int|
                        td > 0 && crate::math::rat_le(t_min.num as int, t_min.den as int, tn, td)
                            && crate::math::rat_le(tn, td, t_max.num as int, t_max.den as int)
                        implies !(#[trigger] self.spec_hits(*r, tn, td)) by {
                        assert(!set_hits(objects, *r, tn, td));
                    }
                    assert(no_set_hit_in(objects, *r, t_min, t_max));
                },
            }
        }
        tmp_record
    }

    /// Any-hit query: prune with the tree, then ask each candidate in
    /// turn, returning on the first hit. The answer equals the brute-force
    /// linear scan's: true exactly when some object has a hit in range.
    fn shadow_hit(&self, r: &Ray, t_min: Rat, t_max: Rat) -> (res: bool)
        ensures
            res == any_set_hit_in(self.hittables.objects@, *r, t_min, t_max),
    {
        let ghost objects = self.hittables.objects@;
        let ghost bounds = bounds_of(objects);
        let ghost rspace = scene_bound(objects);
        let n = self.hittables.objects.len();
        let mut result = self.prune(r);
        let ghost v0 = result@;
        sort_indices(&mut result);
        let ghost v1 = result@;
        dedup_indices(&mut result);
        let ghost idxs = result@;
        proof {
            assert forall|x: usize| #[trigger] idxs.contains(x) <==> visit(
                self.tree@,
                0,
                *r,
            ).contains(x) by {
                assert(v1.contains(x) <==> v0.contains(x));
                assert(idxs.contains(x) <==> v1.contains(x));
            }
            assert forall|m: int| 0 <= m < idxs.len() implies (#[trigger] idxs[m] as int) < n by {
                assert(idxs.contains(idxs[m]));
                assert(v0.contains(idxs[m]));
                let k0 = choose|k0: int| 0 <= k0 < v0.len() && v0[k0] == idxs[m];
            }
        }
        let mut k: usize = 0;
        while k < result.len()
            invariant
                idxs == result@,
                objects == self.hittables.objects@,
                n == objects.len(),
                all_wf(objects),
                r.wf(),
                t_min.wf(),
                t_max.wf(),
                t_min.spec_pos(),
                forall|m: int| 0 <= m < idxs.len() ==> (#[trigger] idxs[m] as int) < n,
                k <= idxs.len(),
                forall|m: int, tn: int, td: int|
                    0 <= m < k && td > 0 && crate::math::rat_le(
                        t_min.num as int,
                        t_min.den as int,
                        tn,
                        td,
                    ) && crate::math::rat_le(tn, td, t_max.num as int, t_max.den as int)
                        ==> !#[trigger] objects[idxs[m] as int].spec_hits(*r, tn, td),
            decreases idxs.len() - k,
        {
            proof {
                assert(idxs[k as int] == result@[k as int]);
            }
            let idx = result[k];
            if self.hittables.objects[idx].shadow_hit(r, t_min, t_max) {
                proof {
                    let (tn, td) = choose|tn: int, td: int|
                        td > 0 && crate::math::rat_le(t_min.num as int, t_min.den as int, tn, td)
                            && crate::math::rat_le(tn, td, t_max.num as int, t_max.den as int)
                            && #[trigger] objects[idx as int].spec_hits(*r, tn, td);
                    assert(set_hits(objects, *r, tn, td));
                    assert(self.spec_hits(*r, tn, td));
                    assert(any_set_hit_in(objects, *r, t_min, t_max));
                }
                return true;
            }
            k = k + 1;
        }
        proof {
            if any_set_hit_in(objects, *r, t_min, t_max) {
                let (tn, td) = choose|tn: int, td: int|
                    td > 0 && crate::math::rat_le(t_min.num as int, t_min.den as int, tn, td)
                        && crate::math::rat_le(tn, td, t_max.num as int, t_max.den as int)
                        && #[trigger] set_hits(objects, *r, tn, td);
                let i = choose|i: int|
                    0 <= i < objects.len() && #[trigger] objects[i].spec_hits(*r, tn, td);
                lemma_rat_pos_le_kd(tn, td, t_min.num as int, t_min.den as int);
                assert(on_ray_in_box(*r, tn, td, bounds[i]));
                crate::ray::lemma_on_ray_in_contained_box(*r, tn, td, bounds[i], rspace);
                assert(objset(self.tree@, 0).contains(i as usize));
                lemma_visit_complete(
                    self.tree@,
                    0,
                    self.tree@.len() as int,
                    rspace,
                    bounds,
                    *r,
                    i as usize,
                    tn,
                    td,
                );
                assert(idxs.contains(i as usize));
                let m = choose|m: int| 0 <= m < idxs.len() && idxs[m] == i as usize;
                assert(!objects[idxs[m] as int].spec_hits(*r, tn, td));
            }
            if exists|tn: int, td: int|
                td > 0 && crate::math::rat_le(t_min.num as int, t_min.den as int, tn, td)
                    && crate::math::rat_le(tn, td, t_max.num as int, t_max.den as int)
                    && #[trigger] self.spec_hits(*r, tn, td) {
                let (tn, td) = choose|tn: int, td: int|
                    td > 0 && crate::math::rat_le(t_min.num as int, t_min.den as int, tn, td)
                        && crate::math::rat_le(tn, td, t_max.num as int, t_max.den as int)
                        && #[trigger] self.spec_hits(*r, tn, td);
                assert(set_hits(objects, *r, tn, td));
                assert(any_set_hit_in(objects, *r, t_min, t_max));
            }
        }
        false
    }

    /// Dummy bound: the empty box. Must not be relied upon.
    fn bound(&self) -> (b: AABB) {
        AABB::empty()
    }
}

} // verus!
