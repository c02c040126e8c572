use vstd::prelude::*;
use vstd::seq_lib::{to_multiset_insert, to_multiset_build, to_multiset_contains};
use crate::aabb::AABB;
use crate::plane::{Dimension, Plane};

verus! {

/// Which side of a chosen splitting plane an object falls on during one
/// partition step. `Both` marks an object straddling the plane, duplicated
/// into both children.
#[derive(Clone, Copy, Debug, PartialEq, Eq, Structural)]
pub enum Side {
    Left,
    Right,
    Both,
}

/// A boundary event: the box of object `shape` begins (`start == true`, at
/// its minimum) or ends (`start == false`, at its maximum) at `plane.pos`
/// along `plane.dimension`. Each object contributes two events per axis.
#[derive(Clone, Copy, Debug, PartialEq, Eq, Structural)]
pub struct Candidate {
    pub plane: Plane,
    pub start: bool,
    pub shape: usize,
}

/// The full event list of one build step.
pub type Candidates = Vec<Candidate>;

impl Candidate {
    pub fn new(plane: Plane, start: bool, shape: usize) -> (c: Candidate)
        ensures
            c == (Candidate { plane, start, shape }),
    {
        Candidate { plane, start, shape }
    }

    /// A begin event: the object starts counting toward the left side once
    /// the sweep passes it.
    pub open spec fn spec_is_left(self) -> bool {
        self.start
    }

    /// An end event: the object stops counting toward the right side when
    /// the sweep reaches it.
    pub open spec fn spec_is_right(self) -> bool {
        !self.start
    }

    pub open spec fn spec_dimension(self) -> Dimension {
        self.plane.dimension
    }

    pub fn is_left(&self) -> (r: bool)
        ensures
            r == self.spec_is_left(),
    {
        self.start
    }

    pub fn is_right(&self) -> (r: bool)
        ensures
            r == self.spec_is_right(),
    {
        !self.start
    }

    pub fn dimension(&self) -> (d: Dimension)
        ensures
            d == self.spec_dimension(),
    {
        self.plane.dimension
    }

    /// The six boundary events of one object: begin and end on each axis.
    pub fn gen_candidates(index: usize, bb: &AABB) -> (r: Vec<Candidate>)
        ensures
            r@ == spec_gen_candidates(index, *bb),
    {
        let v: Vec<Candidate> = vec![
            Candidate::new(Plane::new_x(bb.min.x), true, index),
            Candidate::new(Plane::new_x(bb.max.x), false, index),
            Candidate::new(Plane::new_y(bb.min.y), true, index),
            Candidate::new(Plane::new_y(bb.max.y), false, index),
            Candidate::new(Plane::new_z(bb.min.z), true, index),
            Candidate::new(Plane::new_z(bb.max.z), false, index),
        ];
        proof {
            assert(v@ =~= spec_gen_candidates(index, *bb));
        }
        v
    }
}

/// The six boundary events of one object.
pub open spec fn spec_gen_candidates(index: usize, bb: AABB) -> Seq<Candidate> {
    seq![
        Candidate { plane: Plane { dimension: Dimension::X, pos: bb.min.x }, start: true, shape: index },
        Candidate { plane: Plane { dimension: Dimension::X, pos: bb.max.x }, start: false, shape: index },
        Candidate { plane: Plane { dimension: Dimension::Y, pos: bb.min.y }, start: true, shape: index },
        Candidate { plane: Plane { dimension: Dimension::Y, pos: bb.max.y }, start: false, shape: index },
        Candidate { plane: Plane { dimension: Dimension::Z, pos: bb.min.z }, start: true, shape: index },
        Candidate { plane: Plane { dimension: Dimension::Z, pos: bb.max.z }, start: false, shape: index },
    ]
}

/// Rank of the event kind in the sweep order: at equal position on the same
/// axis, end events come before begin events, so that an object is never
/// counted on both sides of a plane that coincides with one of its faces.
pub open spec fn kind_rank(c: Candidate) -> int {
    if c.start {
        1
    } else {
        0
    }
}

/// The composite sweep order: primary axis, then position ascending, then
/// end before begin.
pub open spec fn cand_le(a: Candidate, b: Candidate) -> bool {
    ||| a.plane.dimension.rank() < b.plane.dimension.rank()
    ||| (a.plane.dimension.rank() == b.plane.dimension.rank() && (a.plane.pos < b.plane.pos || (
    a.plane.pos == b.plane.pos && kind_rank(a) <= kind_rank(b))))
}

/// The sweep order is total.
pub proof fn lemma_cand_le_total(a: Candidate, b: Candidate)
    ensures
        cand_le(a, b) || cand_le(b, a),
{
}

/// The sweep order is transitive.
pub proof fn lemma_cand_le_trans(a: Candidate, b: Candidate, c: Candidate)
    requires
        cand_le(a, b),
        cand_le(b, c),
    ensures
        cand_le(a, c),
{
}

/// The event list is in sweep order.
pub open spec fn sorted_cands(s: Seq<Candidate>) -> bool {
    forall|i: int, j: int| 0 <= i < j < s.len() ==> cand_le(#[trigger] s[i], #[trigger] s[j])
}

/// Exec comparison deciding the sweep order.
pub fn cand_le_exec(a: &Candidate, b: &Candidate) -> (r: bool)
    ensures
        r == cand_le(*a, *b),
{
    let ra = dim_rank(a.plane.dimension);
    let rb = dim_rank(b.plane.dimension);
    if ra < rb {
        true
    } else if ra > rb {
        false
    } else if a.plane.pos < b.plane.pos {
        true
    } else if a.plane.pos > b.plane.pos {
        false
    } else {
        !a.start || b.start
    }
}

fn dim_rank(d: Dimension) -> (r: u8)
    ensures
        r as int == d.rank(),
{
    match d {
        Dimension::X => 0,
        Dimension::Y => 1,
        Dimension::Z => 2,
    }
}

/// Sort the event list into sweep order (stable ordering is not needed:
/// equal keys may end up in any order, and every later step is proved
/// against the sorted sequence itself).
pub fn sort_candidates(cands: &mut Candidates)
    ensures
        sorted_cands(final(cands)@),
        final(cands)@.to_multiset() == old(cands)@.to_multiset(),
{
    let mut out: Vec<Candidate> = Vec::new();
    proof {
        assert(out@ =~= cands@.subrange(0, 0));
    }
    let mut i: usize = 0;
    while i < cands.len()
        invariant
            i <= cands@.len(),
            sorted_cands(out@),
            out@.to_multiset() == cands@.subrange(0, i as int).to_multiset(),
        decreases cands@.len() - i,
    {
        let c = cands[i];
        let mut j: usize = out.len();
        while j > 0 && !cand_le_exec(&out[j - 1], &c)
            invariant
                j <= out@.len(),
                sorted_cands(out@),
                forall|k: int| j <= k < out@.len() ==> !cand_le(#[trigger] out@[k], c),
            decreases j,
        {
            j = j - 1;
        }
        proof {
            let co = out@;
            assert forall|x: int, y: int|
                0 <= x < y < co.insert(j as int, c).len() implies cand_le(
                #[trigger] co.insert(j as int, c)[x],
                #[trigger] co.insert(j as int, c)[y],
            ) by {
                co.insert_ensures(j as int, c);
                let s = co.insert(j as int, c);
                if y == j {
                    // x < j: the scan stopped because out[j-1] <= c
                    assert(cand_le(co[j - 1], c));
                    if x < j - 1 {
                        lemma_cand_le_trans(co[x], co[j - 1], c);
                    }
                } else if x == j {
                    // y > j: every scanned element is not <= c, so c <= it
                    lemma_cand_le_total(co[y - 1], c);
                } else if x < j && y > j {
                    lemma_cand_le_total(co[y - 1], c);
                    lemma_cand_le_trans(co[x], c, co[y - 1]);
                }
            }
            to_multiset_insert(co, j as int, c);
            assert(cands@.subrange(0, i as int + 1) =~= cands@.subrange(0, i as int).push(c));
            to_multiset_build(cands@.subrange(0, i as int), c);
        }
        out.insert(j, c);
        i = i + 1;
    }
    proof {
        assert(cands@.subrange(0, cands@.len() as int) =~= cands@);
    }
    *cands = out;
}

/// Every event in the list describes the box of its object: a begin event
/// sits at the box minimum on its axis, an end event at the box maximum.
pub open spec fn cand_matches(c: Candidate, bounds: Seq<AABB>) -> bool {
    &&& c.shape < bounds.len()
    &&& c.plane.pos as int == if c.start {
        bounds[c.shape as int].min_at(c.plane.dimension)
    } else {
        bounds[c.shape as int].max_at(c.plane.dimension)
    }
}

/// All events in the list describe their objects' boxes.
pub open spec fn cands_match(cands: Seq<Candidate>, bounds: Seq<AABB>) -> bool {
    forall|c: Candidate| #[trigger] cands.contains(c) ==> cand_matches(c, bounds)
}

/// Object `s` owns at least one event in the list.
pub open spec fn in_shapes(cands: Seq<Candidate>, s: usize) -> bool {
    exists|c: Candidate| #[trigger] cands.contains(c) && c.shape == s
}

/// Object `s` owns an x-axis begin event in the list.
pub open spec fn has_x_begin(cands: Seq<Candidate>, s: usize) -> bool {
    exists|c: Candidate|
        #[trigger] cands.contains(c) && c.shape == s && c.start && c.plane.dimension
            == Dimension::X
}

/// Every object with any event in the list also has an x-axis begin event
/// there. Leaves read their object sets off the x-axis begin events alone,
/// so this is what keeps objects from being lost.
pub open spec fn x_begin_closed(cands: Seq<Candidate>) -> bool {
    forall|s: usize| #[trigger] in_shapes(cands, s) ==> has_x_begin(cands, s)
}

/// The set of objects owning an event in the list.
pub open spec fn shapes_of(cands: Seq<Candidate>) -> Set<usize> {
    Set::new(|s: usize| in_shapes(cands, s))
}

/// Object `s` owns a begin event of axis `d` in the list.
pub open spec fn has_begin_on(cands: Seq<Candidate>, s: usize, d: Dimension) -> bool {
    exists|c: Candidate|
        #[trigger] cands.contains(c) && c.shape == s && c.plane.dimension == d && c.start
}

/// Object `s` owns an end event of axis `d` in the list.
pub open spec fn has_end_on(cands: Seq<Candidate>, s: usize, d: Dimension) -> bool {
    exists|c: Candidate|
        #[trigger] cands.contains(c) && c.shape == s && c.plane.dimension == d && !c.start
}

/// Every object with any event in the list has a begin and an end event on
/// every axis there: an object's six events are generated together and are
/// routed together, so none of them is ever alone.
pub open spec fn events_complete(cands: Seq<Candidate>) -> bool {
    &&& forall|s: usize, d: Dimension|
        in_shapes(cands, s) ==> #[trigger] has_begin_on(cands, s, d)
    &&& forall|s: usize, d: Dimension| in_shapes(cands, s) ==> #[trigger] has_end_on(cands, s, d)
}

/// Two events agree on object, axis and kind.
pub open spec fn same_event_key(a: Candidate, b: Candidate) -> bool {
    a.shape == b.shape && a.plane.dimension == b.plane.dimension && a.start == b.start
}

/// No two events of the list agree on object, axis and kind: each object
/// contributes at most one begin and one end per axis.
pub open spec fn events_unique(cands: Seq<Candidate>) -> bool {
    forall|j: int, k: int|
        0 <= j < k < cands.len() ==> !same_event_key(#[trigger] cands[j], #[trigger] cands[k])
}

/// Appending an event extends membership by exactly that event.
pub proof fn lemma_push_contains(s: Seq<Candidate>, e: Candidate)
    ensures
        forall|c: Candidate| #[trigger] s.push(e).contains(c) <==> s.contains(c) || c == e,
{
    assert forall|c: Candidate| #[trigger] s.push(e).contains(c) implies s.contains(c) || c
        == e by {
        let k = choose|k: int| 0 <= k < s.push(e).len() && s.push(e)[k] == c;
        if k < s.len() {
            assert(s[k] == c);
        }
    }
    assert forall|c: Candidate| s.contains(c) || c == e implies #[trigger] s.push(e).contains(
        c,
    ) by {
        if s.contains(c) {
            let k = choose|k: int| 0 <= k < s.len() && s[k] == c;
            assert(s.push(e)[k] == c);
        } else {
            assert(s.push(e)[s.len() as int] == c);
        }
    }
}

/// Two event lists with equal multisets contain the same events, so all
/// membership-based invariants carry over.
pub proof fn lemma_perm_preserves(a: Seq<Candidate>, b: Seq<Candidate>, bounds: Seq<AABB>)
    requires
        a.to_multiset() == b.to_multiset(),
    ensures
        forall|c: Candidate| a.contains(c) <==> #[trigger] b.contains(c),
        cands_match(a, bounds) ==> cands_match(b, bounds),
        x_begin_closed(a) ==> x_begin_closed(b),
        events_complete(a) ==> events_complete(b),
        shapes_of(a) == shapes_of(b),
{
    assert forall|c: Candidate| a.contains(c) <==> #[trigger] b.contains(c) by {
        to_multiset_contains(a, c);
        to_multiset_contains(b, c);
    }
    assert forall|s: usize| in_shapes(a, s) <==> in_shapes(b, s) by {
        if in_shapes(a, s) {
            let c = choose|c: Candidate| #[trigger] a.contains(c) && c.shape == s;
            assert(b.contains(c));
        }
        if in_shapes(b, s) {
            let c = choose|c: Candidate| #[trigger] b.contains(c) && c.shape == s;
            assert(a.contains(c));
        }
    }
    assert forall|s: usize| has_x_begin(a, s) <==> has_x_begin(b, s) by {
        if has_x_begin(a, s) {
            let c = choose|c: Candidate|
                #[trigger] a.contains(c) && c.shape == s && c.start && c.plane.dimension
                    == Dimension::X;
            assert(b.contains(c));
        }
        if has_x_begin(b, s) {
            let c = choose|c: Candidate|
                #[trigger] b.contains(c) && c.shape == s && c.start && c.plane.dimension
                    == Dimension::X;
            assert(a.contains(c));
        }
    }
    if x_begin_closed(a) {
        assert forall|s: usize| #[trigger] in_shapes(b, s) implies has_x_begin(b, s) by {
            assert(in_shapes(a, s));
        }
    }
    assert forall|s: usize, d: Dimension| has_begin_on(a, s, d) <==> has_begin_on(b, s, d) by {
        if has_begin_on(a, s, d) {
            let c = choose|c: Candidate|
                #[trigger] a.contains(c) && c.shape == s && c.plane.dimension == d && c.start;
            assert(b.contains(c));
        }
        if has_begin_on(b, s, d) {
            let c = choose|c: Candidate|
                #[trigger] b.contains(c) && c.shape == s && c.plane.dimension == d && c.start;
            assert(a.contains(c));
        }
    }
    assert forall|s: usize, d: Dimension| has_end_on(a, s, d) <==> has_end_on(b, s, d) by {
        if has_end_on(a, s, d) {
            let c = choose|c: Candidate|
                #[trigger] a.contains(c) && c.shape == s && c.plane.dimension == d && !c.start;
            assert(b.contains(c));
        }
        if has_end_on(b, s, d) {
            let c = choose|c: Candidate|
                #[trigger] b.contains(c) && c.shape == s && c.plane.dimension == d && !c.start;
            assert(a.contains(c));
        }
    }
    if events_complete(a) {
        assert forall|s: usize, d: Dimension| in_shapes(b, s) implies #[trigger] has_begin_on(
            b,
            s,
            d,
        ) by {
            assert(in_shapes(a, s));
            assert(has_begin_on(a, s, d));
        }
        assert forall|s: usize, d: Dimension| in_shapes(b, s) implies #[trigger] has_end_on(
            b,
            s,
            d,
        ) by {
            assert(in_shapes(a, s));
            assert(has_end_on(a, s, d));
        }
    }
    assert(shapes_of(a) =~= shapes_of(b));
}

/// Key-uniqueness carries over a permutation of a matched list: on a list
/// whose events all sit on their objects' boxes, the key of an event
/// determines the whole event, so key-uniqueness is value distinctness,
/// which a permutation keeps.
pub proof fn lemma_perm_preserves_unique(a: Seq<Candidate>, b: Seq<Candidate>, bounds: Seq<AABB>)
    requires
        a.to_multiset() == b.to_multiset(),
        cands_match(a, bounds),
        events_unique(a),
    ensures
        events_unique(b),
{
    lemma_perm_preserves(a, b, bounds);
    assert(a.no_duplicates()) by {
        assert forall|i: int, j: int|
            (0 <= i < a.len() && 0 <= j < a.len() && i != j) implies a[i] != a[j] by {
            if i < j {
                assert(!same_event_key(a[i], a[j]));
            } else {
                assert(!same_event_key(a[j], a[i]));
            }
        }
    }
    a.lemma_multiset_has_no_duplicates();
    b.lemma_multiset_has_no_duplicates_conv();
    assert forall|j: int, k: int|
        0 <= j < k < b.len() implies !same_event_key(#[trigger] b[j], #[trigger] b[k]) by {
        if same_event_key(b[j], b[k]) {
            assert(b.contains(b[j]) && b.contains(b[k]));
            assert(cand_matches(b[j], bounds) && cand_matches(b[k], bounds));
            assert(b[j].plane.pos == b[k].plane.pos);
            assert(b[j].plane == b[k].plane);
            assert(b[j] == b[k]);
        }
    }
}

} // verus!
