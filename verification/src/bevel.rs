//! Edge bevel: which faces it rebuilds, along which edges its corners
//! slide, and the polygons that take the place of the old faces.

use vstd::prelude::*;
use crate::edge_ring::{edge_face_map, faces_over, repeat_face};
use crate::mesh_data::{compact, is_compacted, MeshData};
use crate::mesh_edit::{describes, keep_triangles, kept_triangles};
use crate::scalar::{Scalar, INFINITY_BITS};
use crate::topology::{edge_key, ekey, face_loop, face_loop_of, Topology};

verus! {

/// The first place of `w` in a loop.
pub open spec fn first_place(lp: Seq<usize>, w: usize) -> Option<int>
    decreases lp.len(),
{
    if lp.len() == 0 {
        None
    } else if first_place(lp.drop_last(), w) is Some {
        first_place(lp.drop_last(), w)
    } else if lp.last() == w {
        Some(lp.len() - 1)
    } else {
        None
    }
}

/// The vertex before place `i` of a closed loop.
pub open spec fn before(lp: Seq<usize>, i: int) -> usize {
    if i == 0 {
        lp.last()
    } else {
        lp[i - 1]
    }
}

/// The vertex after place `i` of a closed loop.
pub open spec fn after(lp: Seq<usize>, i: int) -> usize {
    if i == lp.len() - 1 {
        lp[0]
    } else {
        lp[i + 1]
    }
}

/// The loop neighbor of `w` on the side away from `other`: the vertex that
/// the new corner slides toward. `None` if `other` is no neighbor of `w`.
pub open spec fn slide_target(lp: Seq<usize>, w: usize, other: usize) -> Option<usize> {
    match first_place(lp, w) {
        Some(i) => if before(lp, i) == other {
            Some(after(lp, i))
        } else if after(lp, i) == other {
            Some(before(lp, i))
        } else {
            None
        },
        None => None,
    }
}

/// Some outline edge of face `f` ends at `w`.
pub open spec fn touches(topo: Topology, f: int, w: usize) -> bool {
    exists|i: int|
        0 <= i < topo.faces@[f].outline@.len() && ((#[trigger] topo.faces@[f].outline@[i]).0 == w
            || topo.faces@[f].outline@[i].1 == w)
}

/// The faces among the first `upto` that touch `w`, besides the two sides.
pub open spec fn end_faces_at(topo: Topology, f1: usize, f2: usize, w: usize, upto: nat) -> Seq<usize>
    decreases upto,
{
    if upto == 0 {
        seq![]
    } else {
        let f = (upto - 1) as usize;
        let rest = end_faces_at(topo, f1, f2, w, (upto - 1) as nat);
        if f != f1 && f != f2 && touches(topo, f as int, w) {
            rest.push(f)
        } else {
            rest
        }
    }
}

/// In the loop of its end face, `w` sits between `t1` and `t2`.
pub open spec fn sits_between(lp: Seq<usize>, w: usize, t1: usize, t2: usize) -> bool {
    match first_place(lp, w) {
        Some(i) => {
            &&& before(lp, i) == t1 || after(lp, i) == t1
            &&& before(lp, i) == t2 || after(lp, i) == t2
        },
        None => false,
    }
}

/// What a bevel rebuilds. The edge runs from `a` to `b`; `side0` and `side1`
/// are the faces along it, with their loops; at each end one more face, the
/// end face, with its loop; and the vertices that the corners slide toward,
/// in the loop of each side.
pub struct BevelView {
    pub a: usize,
    pub b: usize,
    pub side0: usize,
    pub side1: usize,
    pub loop0: Seq<usize>,
    pub loop1: Seq<usize>,
    pub end_a: usize,
    pub end_b: usize,
    pub end_loop_a: Seq<usize>,
    pub end_loop_b: Seq<usize>,
    pub a0: usize,
    pub b0: usize,
    pub a1: usize,
    pub b1: usize,
}

/// The plan for beveling `edge`. Only an edge between two faces is beveled,
/// and only where each of its ends is a corner of three faces.
pub open spec fn plan_of(topo: Topology, turned: Seq<bool>, edge: (usize, usize)) -> Option<
    BevelView,
> {
    let n = topo.faces@.len();
    let (a, b) = edge_key(edge.0, edge.1);
    let sides = faces_over(topo, n, (a, b));
    if sides.len() != 2 {
        None
    } else {
        let (f1, f2) = (sides[0], sides[1]);
        let l1 = face_loop_of(topo, f1 as int, turned[f1 as int]);
        let l2 = face_loop_of(topo, f2 as int, turned[f2 as int]);
        if l1 is None || l2 is None {
            None
        } else {
            let (loop0, loop1) = (l1->0, l2->0);
            let ends_a = end_faces_at(topo, f1, f2, a, n);
            let ends_b = end_faces_at(topo, f1, f2, b, n);
            if slide_target(loop0, a, b) is None || slide_target(loop1, a, b) is None
                || slide_target(loop0, b, a) is None || slide_target(loop1, b, a) is None
                || ends_a.len() != 1 || ends_b.len() != 1 {
                None
            } else {
                let (ea, eb) = (ends_a[0], ends_b[0]);
                let la = face_loop_of(topo, ea as int, turned[ea as int]);
                let lb = face_loop_of(topo, eb as int, turned[eb as int]);
                if la is None || lb is None {
                    None
                } else {
                    let v = BevelView {
                        a,
                        b,
                        side0: f1,
                        side1: f2,
                        loop0,
                        loop1,
                        end_a: ea,
                        end_b: eb,
                        end_loop_a: la->0,
                        end_loop_b: lb->0,
                        a0: slide_target(loop0, a, b)->0,
                        b0: slide_target(loop0, b, a)->0,
                        a1: slide_target(loop1, a, b)->0,
                        b1: slide_target(loop1, b, a)->0,
                    };
                    if sits_between(v.end_loop_a, a, v.a0, v.a1) && sits_between(
                        v.end_loop_b,
                        b,
                        v.b0,
                        v.b1,
                    ) {
                        Some(v)
                    } else {
                        None
                    }
                }
            }
        }
    }
}

/// A resolved bevel: see [`BevelView`] for the fields.
#[derive(Debug)]
pub struct BevelPlan {
    pub a: usize,
    pub b: usize,
    pub side0: usize,
    pub side1: usize,
    pub loop0: Vec<usize>,
    pub loop1: Vec<usize>,
    pub end_a: usize,
    pub end_b: usize,
    pub end_loop_a: Vec<usize>,
    pub end_loop_b: Vec<usize>,
    pub a0: usize,
    pub b0: usize,
    pub a1: usize,
    pub b1: usize,
}

impl View for BevelPlan {
    type V = BevelView;

    open spec fn view(&self) -> BevelView {
        BevelView {
            a: self.a,
            b: self.b,
            side0: self.side0,
            side1: self.side1,
            loop0: self.loop0@,
            loop1: self.loop1@,
            end_a: self.end_a,
            end_b: self.end_b,
            end_loop_a: self.end_loop_a@,
            end_loop_b: self.end_loop_b@,
            a0: self.a0,
            b0: self.b0,
            a1: self.a1,
            b1: self.b1,
        }
    }
}

proof fn lemma_first_place(lp: Seq<usize>, w: usize)
    ensures
        first_place(lp, w) matches Some(i) ==> 0 <= i < lp.len() && lp[i] == w,
    decreases lp.len(),
{
    if lp.len() > 0 {
        lemma_first_place(lp.drop_last(), w);
    }
}

fn find_first(lp: &Vec<usize>, w: usize) -> (r: Option<usize>)
    ensures
        r is Some == first_place(lp@, w) is Some,
        r matches Some(i) ==> first_place(lp@, w) == Some(i as int) && i < lp@.len(),
{
    let mut i: usize = 0;
    let mut found: Option<usize> = None;
    while i < lp.len()
        invariant
            i <= lp@.len(),
            found is Some == first_place(lp@.take(i as int), w) is Some,
            found matches Some(k) ==> first_place(lp@.take(i as int), w) == Some(k as int),
        decreases lp@.len() - i,
    {
        if found.is_none() && lp[i] == w {
            found = Some(i);
        }
        i += 1;
        assert(lp@.take(i as int).drop_last() =~= lp@.take(i - 1));
        assert(lp@.take(i as int).last() == lp@[i - 1]);
    }
    assert(lp@.take(i as int) =~= lp@);
    proof {
        lemma_first_place(lp@, w);
    }
    found
}

fn before_of(lp: &Vec<usize>, i: usize) -> (r: usize)
    requires
        i < lp@.len(),
    ensures
        r == before(lp@, i as int),
{
    if i == 0 {
        lp[lp.len() - 1]
    } else {
        lp[i - 1]
    }
}

fn after_of(lp: &Vec<usize>, i: usize) -> (r: usize)
    requires
        i < lp@.len(),
    ensures
        r == after(lp@, i as int),
{
    if i == lp.len() - 1 {
        lp[0]
    } else {
        lp[i + 1]
    }
}

fn find_slide_target(lp: &Vec<usize>, w: usize, other: usize) -> (r: Option<usize>)
    ensures
        r == slide_target(lp@, w, other),
{
    match find_first(lp, w) {
        None => None,
        Some(i) => {
            let p = before_of(lp, i);
            let n = after_of(lp, i);
            if p == other {
                Some(n)
            } else if n == other {
                Some(p)
            } else {
                None
            }
        },
    }
}

fn does_touch(topo: &Topology, f: usize, w: usize) -> (r: bool)
    requires
        f < topo.faces@.len(),
    ensures
        r == touches(*topo, f as int, w),
{
    let outline = &topo.faces[f].outline;
    let mut i: usize = 0;
    while i < outline.len()
        invariant
            i <= outline@.len(),
            f < topo.faces@.len(),
            *outline == topo.faces@[f as int].outline,
            forall|k: int|
                0 <= k < i ==> (#[trigger] topo.faces@[f as int].outline@[k]).0 != w
                    && topo.faces@[f as int].outline@[k].1 != w,
        decreases outline@.len() - i,
    {
        if outline[i].0 == w || outline[i].1 == w {
            assert(topo.faces@[f as int].outline@[i as int].0 == w
                || topo.faces@[f as int].outline@[i as int].1 == w);
            return true;
        }
        i += 1;
    }
    false
}

fn other_faces(topo: &Topology, f1: usize, f2: usize, w: usize) -> (r: Vec<usize>)
    ensures
        r@ == end_faces_at(*topo, f1, f2, w, topo.faces@.len()),
        forall|i: int| 0 <= i < r@.len() ==> (#[trigger] r@[i]) < topo.faces@.len(),
{
    let mut r: Vec<usize> = Vec::new();
    let mut f: usize = 0;
    while f < topo.faces.len()
        invariant
            f <= topo.faces@.len(),
            r@ == end_faces_at(*topo, f1, f2, w, f as nat),
            forall|i: int| 0 <= i < r@.len() ==> (#[trigger] r@[i]) < topo.faces@.len(),
        decreases topo.faces@.len() - f,
    {
        if f != f1 && f != f2 && does_touch(topo, f, w) {
            r.push(f);
        }
        f += 1;
    }
    r
}

fn is_between(lp: &Vec<usize>, w: usize, t1: usize, t2: usize) -> (r: bool)
    ensures
        r == sits_between(lp@, w, t1, t2),
{
    match find_first(lp, w) {
        None => false,
        Some(i) => {
            let p = before_of(lp, i);
            let n = after_of(lp, i);
            (p == t1 || n == t1) && (p == t2 || n == t2)
        },
    }
}

proof fn lemma_faces_over_bound(topo: Topology, upto: nat, key: (usize, usize))
    requires
        upto <= topo.faces@.len(),
        topo.faces@.len() <= usize::MAX,
    ensures
        forall|i: int|
            0 <= i < faces_over(topo, upto, key).len() ==> (#[trigger] faces_over(
                topo,
                upto,
                key,
            )[i]) < upto,
    decreases upto,
{
    if upto > 0 {
        let f = (upto - 1) as nat;
        lemma_faces_over_bound(topo, f, key);
        let outline = topo.faces@[f as int].outline@;
        lemma_repeat_face(outline, f as usize, key);
        let rest = faces_over(topo, f, key);
        let more = repeat_face(outline, f as usize, key);
        let now = faces_over(topo, upto, key);
        assert forall|i: int| 0 <= i < now.len() implies (#[trigger] now[i]) < upto by {
            if i < rest.len() {
                assert(now[i] == rest[i]);
            } else {
                assert(now[i] == more[i - rest.len()]);
            }
        }
    }
}

proof fn lemma_repeat_face(outline: Seq<(usize, usize)>, face: usize, key: (usize, usize))
    ensures
        forall|i: int|
            0 <= i < repeat_face(outline, face, key).len()
                ==> #[trigger] repeat_face(outline, face, key)[i] == face,
    decreases outline.len(),
{
    if outline.len() > 0 {
        lemma_repeat_face(outline.drop_last(), face, key);
        let rest = repeat_face(outline.drop_last(), face, key);
        let now = repeat_face(outline, face, key);
        assert forall|i: int| 0 <= i < now.len() implies #[trigger] now[i] == face by {
            if i < rest.len() {
                assert(now[i] == rest[i]);
            }
        }
    }
}

/// Resolves a bevel of `edge`: the side faces, the end faces and the slide
/// targets. `None` when the edge cannot be beveled.
pub fn bevel_plan(topo: &Topology, turned: &Vec<bool>, edge: (usize, usize)) -> (r: Option<
    BevelPlan,
>)
    requires
        turned@.len() == topo.faces@.len(),
    ensures
        r is Some == plan_of(*topo, turned@, edge) is Some,
        r matches Some(p) ==> p@ == plan_of(*topo, turned@, edge)->0,
        r matches Some(p) ==> p.side0 < topo.faces@.len() && p.side1 < topo.faces@.len() && p.end_a
            < topo.faces@.len() && p.end_b < topo.faces@.len(),
{
    let (a, b) = ekey(edge.0, edge.1);
    let sides = edge_face_map(topo, (a, b));
    if sides.len() != 2 {
        return None;
    }
    let (f1, f2) = (sides[0], sides[1]);
    let total: usize = topo.faces.len();
    proof {
        assert(total == topo.faces@.len());
        lemma_faces_over_bound(*topo, topo.faces@.len(), (a, b));
        assert(sides@[0] < topo.faces@.len() && sides@[1] < topo.faces@.len());
    }
    let (loop0, loop1) = match (face_loop(topo, f1, turned[f1]), face_loop(topo, f2, turned[f2])) {
        (Some(x), Some(y)) => (x, y),
        _ => return None,
    };
    let (a0, a1, b0, b1) = match (
        find_slide_target(&loop0, a, b),
        find_slide_target(&loop1, a, b),
        find_slide_target(&loop0, b, a),
        find_slide_target(&loop1, b, a),
    ) {
        (Some(p), Some(q), Some(r), Some(s)) => (p, q, r, s),
        _ => return None,
    };
    let ends_a = other_faces(topo, f1, f2, a);
    let ends_b = other_faces(topo, f1, f2, b);
    if ends_a.len() != 1 || ends_b.len() != 1 {
        return None;
    }
    let (ea, eb) = (ends_a[0], ends_b[0]);
    let (end_loop_a, end_loop_b) = match (
        face_loop(topo, ea, turned[ea]),
        face_loop(topo, eb, turned[eb]),
    ) {
        (Some(x), Some(y)) => (x, y),
        _ => return None,
    };
    if !is_between(&end_loop_a, a, a0, a1) || !is_between(&end_loop_b, b, b0, b1) {
        return None;
    }
    Some(
        BevelPlan {
            a,
            b,
            side0: f1,
            side1: f2,
            loop0,
            loop1,
            end_a: ea,
            end_b: eb,
            end_loop_a,
            end_loop_b,
            a0,
            b0,
            a1,
            b1,
        },
    )
}

/// Bits of the shortest slide that can be beveled.
pub const MIN_SLIDE_BITS: u32 = 0x3727_c5ac;

/// The smaller of two lengths; what is not a number does not count.
pub open spec fn shorter(x: Scalar, y: Scalar) -> Scalar {
    if x.nan() || y.less(x) {
        y
    } else {
        x
    }
}

/// The shortest of the four slide lengths, if a bevel has room: it is
/// finite and not next to nothing.
pub fn bevel_room(a0: Scalar, a1: Scalar, b0: Scalar, b1: Scalar) -> (r: Option<Scalar>)
    ensures
        ({
            let m = shorter(shorter(shorter(shorter(Scalar { bits: INFINITY_BITS }, a0), a1), b0), b1);
            r == if m.finite() && !m.less(Scalar { bits: MIN_SLIDE_BITS }) {
                Some(m)
            } else {
                None::<Scalar>
            }
        }),
{
    let m = min_of(min_of(min_of(min_of(Scalar { bits: INFINITY_BITS }, a0), a1), b0), b1);
    if !m.is_finite() || m.is_less(Scalar { bits: MIN_SLIDE_BITS }) {
        None
    } else {
        Some(m)
    }
}

fn min_of(x: Scalar, y: Scalar) -> (r: Scalar)
    ensures
        r == shorter(x, y),
{
    if x.is_nan() || y.is_less(x) {
        y
    } else {
        x
    }
}

/// A corner of a rebuilt polygon: a welded vertex, or row `row` of the
/// rounded profile at the first or second end of the edge. Row 0 lies on
/// side face 0, the last row on side face 1.
#[derive(Clone, Copy, PartialEq, Eq, Structural, Debug)]
pub enum BevelPoint {
    Vertex(usize),
    Profile { second: bool, row: usize },
}

/// The number of profile strips: one at least, sixty-four at most.
pub open spec fn strip_count(segments: usize) -> usize {
    if segments < 1 {
        1
    } else if segments > 64 {
        64
    } else {
        segments
    }
}

/// A side face: the ends of the edge move to row `row` of their profiles.
pub open spec fn side_polygon(v: BevelView, lp: Seq<usize>, row: usize) -> Seq<BevelPoint> {
    Seq::new(
        lp.len(),
        |i: int|
            if lp[i] == v.a {
                BevelPoint::Profile { second: false, row }
            } else if lp[i] == v.b {
                BevelPoint::Profile { second: true, row }
            } else {
                BevelPoint::Vertex(lp[i])
            },
    )
}

/// All rows of a profile, from side 0 to side 1 or back.
pub open spec fn profile(second: bool, strips: usize, forward: bool) -> Seq<BevelPoint> {
    Seq::new(
        (strips + 1) as nat,
        |j: int|
            BevelPoint::Profile {
                second,
                row: if forward {
                    j as usize
                } else {
                    (strips - j) as usize
                },
            },
    )
}

/// What stands for place `i` of an end face's loop: the whole profile, from
/// the side that the loop arrives on, for an end of the edge.
pub open spec fn end_piece(v: BevelView, lp: Seq<usize>, strips: usize, i: int) -> Seq<BevelPoint> {
    if lp[i] == v.a {
        profile(false, strips, before(lp, i) == v.a0)
    } else if lp[i] == v.b {
        profile(true, strips, before(lp, i) == v.b0)
    } else {
        seq![BevelPoint::Vertex(lp[i])]
    }
}

/// An end face: the first `n` places of its loop.
pub open spec fn end_polygon(v: BevelView, lp: Seq<usize>, strips: usize, n: nat) -> Seq<BevelPoint>
    decreases n,
{
    if n == 0 {
        seq![]
    } else {
        end_polygon(v, lp, strips, (n - 1) as nat) + end_piece(v, lp, strips, n - 1)
    }
}

/// One strip of the bevel.
pub open spec fn strip_polygon(j: int, flip: bool) -> Seq<BevelPoint> {
    let s = seq![
        BevelPoint::Profile { second: false, row: j as usize },
        BevelPoint::Profile { second: true, row: j as usize },
        BevelPoint::Profile { second: true, row: (j + 1) as usize },
        BevelPoint::Profile { second: false, row: (j + 1) as usize },
    ];
    if flip {
        s.reverse()
    } else {
        s
    }
}

/// The polygons that take the place of the rebuilt faces: the two sides, the
/// end face or faces, then the strips.
pub open spec fn polygons_of(v: BevelView, strips: usize, flip: bool) -> Seq<Seq<BevelPoint>> {
    let sides = seq![side_polygon(v, v.loop0, 0), side_polygon(v, v.loop1, strips)];
    let first = end_polygon(v, v.end_loop_a, strips, v.end_loop_a.len());
    let ends = if v.end_b != v.end_a {
        seq![first, end_polygon(v, v.end_loop_b, strips, v.end_loop_b.len())]
    } else {
        seq![first]
    };
    sides + ends + Seq::new(strips as nat, |j: int| strip_polygon(j, flip))
}

/// The polygons as sequences.
pub open spec fn polygons_view(polys: Seq<Vec<BevelPoint>>) -> Seq<Seq<BevelPoint>> {
    Seq::new(polys.len(), |i: int| polys[i]@)
}

fn make_side(plan: &BevelPlan, lp: &Vec<usize>, row: usize) -> (r: Vec<BevelPoint>)
    ensures
        r@ == side_polygon(plan@, lp@, row),
{
    let mut r: Vec<BevelPoint> = Vec::new();
    let mut i: usize = 0;
    while i < lp.len()
        invariant
            i <= lp@.len(),
            r@ == side_polygon(plan@, lp@.take(i as int), row),
        decreases lp@.len() - i,
    {
        let w = lp[i];
        r.push(
            if w == plan.a {
                BevelPoint::Profile { second: false, row }
            } else if w == plan.b {
                BevelPoint::Profile { second: true, row }
            } else {
                BevelPoint::Vertex(w)
            },
        );
        i += 1;
        assert(r@ =~= side_polygon(plan@, lp@.take(i as int), row));
    }
    assert(lp@.take(i as int) =~= lp@);
    r
}

fn push_profile(r: &mut Vec<BevelPoint>, second: bool, strips: usize, forward: bool)
    requires
        strips <= 64,
    ensures
        final(r)@ == old(r)@ + profile(second, strips, forward),
{
    let mut j: usize = 0;
    let ghost start = r@;
    while j <= strips
        invariant
            j <= strips + 1,
            strips <= 64,
            r@ == start + profile(second, strips, forward).take(j as int),
        decreases strips + 1 - j,
    {
        let row: usize = if forward {
            j
        } else {
            strips - j
        };
        r.push(BevelPoint::Profile { second, row });
        j += 1;
        assert(r@ =~= start + profile(second, strips, forward).take(j as int));
    }
    assert(profile(second, strips, forward).take(j as int) =~= profile(second, strips, forward));
}

fn make_end(plan: &BevelPlan, lp: &Vec<usize>, strips: usize) -> (r: Vec<BevelPoint>)
    requires
        strips <= 64,
    ensures
        r@ == end_polygon(plan@, lp@, strips, lp@.len()),
{
    let mut r: Vec<BevelPoint> = Vec::new();
    let mut i: usize = 0;
    while i < lp.len()
        invariant
            i <= lp@.len(),
            strips <= 64,
            r@ == end_polygon(plan@, lp@, strips, i as nat),
        decreases lp@.len() - i,
    {
        let w = lp[i];
        let prev = before_of(lp, i);
        let ghost was = r@;
        if w == plan.a {
            push_profile(&mut r, false, strips, prev == plan.a0);
        } else if w == plan.b {
            push_profile(&mut r, true, strips, prev == plan.b0);
        } else {
            r.push(BevelPoint::Vertex(w));
            assert(r@ =~= was + seq![BevelPoint::Vertex(w)]);
        }
        assert(r@ == was + end_piece(plan@, lp@, strips, i as int));
        i += 1;
    }
    r
}

/// The polygons that take the place of the rebuilt faces. `flip` says that
/// the strips, wound from the first end of the edge, would face inward.
pub fn bevel_polygons(plan: &BevelPlan, segments: usize, flip: bool) -> (r: Vec<Vec<BevelPoint>>)
    ensures
        polygons_view(r@) == polygons_of(plan@, strip_count(segments), flip),
{
    let strips: usize = if segments < 1 {
        1
    } else if segments > 64 {
        64
    } else {
        segments
    };
    let mut r: Vec<Vec<BevelPoint>> = Vec::new();
    r.push(make_side(plan, &plan.loop0, 0));
    r.push(make_side(plan, &plan.loop1, strips));
    r.push(make_end(plan, &plan.end_loop_a, strips));
    if plan.end_b != plan.end_a {
        r.push(make_end(plan, &plan.end_loop_b, strips));
    }
    let ghost head = polygons_view(r@);
    let mut j: usize = 0;
    while j < strips
        invariant
            j <= strips <= 64,
            polygons_view(r@) == head + Seq::new(j as nat, |j: int| strip_polygon(j, flip)),
        decreases strips - j,
    {
        let p0 = BevelPoint::Profile { second: false, row: j };
        let p1 = BevelPoint::Profile { second: true, row: j };
        let p2 = BevelPoint::Profile { second: true, row: j + 1 };
        let p3 = BevelPoint::Profile { second: false, row: j + 1 };
        let ghost was = polygons_view(r@);
        let s = if flip {
            vec![p3, p2, p1, p0]
        } else {
            vec![p0, p1, p2, p3]
        };
        assert(s@ =~= strip_polygon(j as int, flip));
        r.push(s);
        j += 1;
        assert(polygons_view(r@) =~= was.push(strip_polygon(j - 1, flip)));
        assert(polygons_view(r@) =~= head + Seq::new(j as nat, |j: int| strip_polygon(j, flip)));
    }
    assert(polygons_view(r@) =~= polygons_of(plan@, strips, flip));
    r
}

/// A vertex of the beveled mesh.
#[derive(Clone, Copy, PartialEq, Eq, Structural, Debug)]
pub enum BevelVertex {
    Mesh(u32),
    New(BevelPoint),
}

/// A triangle of a polygon, by places in it.
#[derive(Clone, Copy, PartialEq, Eq, Structural, Debug)]
pub struct Triangle {
    pub x: u32,
    pub y: u32,
    pub z: u32,
}

/// The polygon corners, the first `n` polygons after one another.
pub open spec fn polygon_vertices(polys: Seq<Seq<BevelPoint>>, n: nat) -> Seq<BevelVertex>
    decreases n,
{
    if n == 0 {
        seq![]
    } else {
        polygon_vertices(polys, (n - 1) as nat) + Seq::new(
            polys[n - 1].len(),
            |i: int| BevelVertex::New(polys[n - 1][i]),
        )
    }
}

/// The indices of these triangles, counted from `base`.
pub open spec fn triangle_indices(tris: Seq<Triangle>, base: int, n: nat) -> Seq<u32>
    decreases n,
{
    if n == 0 {
        seq![]
    } else {
        let t = tris[n - 1];
        triangle_indices(tris, base, (n - 1) as nat) + seq![
            (base + t.x) as u32,
            (base + t.y) as u32,
            (base + t.z) as u32,
        ]
    }
}

/// The triangles of the first `n` polygons, whose corners are numbered from
/// `base` on.
pub open spec fn polygon_triangles(
    polys: Seq<Seq<BevelPoint>>,
    tris: Seq<Vec<Triangle>>,
    base: int,
    n: nat,
) -> Seq<u32>
    decreases n,
{
    if n == 0 {
        seq![]
    } else {
        polygon_triangles(polys, tris, base, (n - 1) as nat) + triangle_indices(
            tris[n - 1]@,
            base + polygon_vertices(polys, (n - 1) as nat).len(),
            tris[n - 1]@.len(),
        )
    }
}

/// Every polygon has three corners at least, and is cut into triangles.
pub open spec fn all_triangulated(polys: Seq<Seq<BevelPoint>>, tris: Seq<Vec<Triangle>>) -> bool {
    forall|i: int|
        0 <= i < polys.len() ==> (#[trigger] polys[i]).len() >= 3 && tris[i]@.len() > 0
}

/// `full` is the mesh with the rebuilt faces replaced by the polygons,
/// before unused vertices are dropped.
pub open spec fn is_beveled(
    indices: Seq<u32>,
    vertices: nat,
    seams: Seq<(u32, u32)>,
    topo: Topology,
    rebuilt: Seq<usize>,
    polys: Seq<Seq<BevelPoint>>,
    tris: Seq<Vec<Triangle>>,
    full: MeshData<BevelVertex>,
) -> bool {
    &&& full.positions@ == Seq::new(vertices, |i: int| BevelVertex::Mesh(i as u32))
        + polygon_vertices(polys, polys.len())
    &&& full.indices@ == kept_triangles(indices, topo, rebuilt, topo.tris@.len())
        + polygon_triangles(polys, tris, vertices as int, polys.len())
    &&& full.seams@ == seams
}

/// The faces that the plan rebuilds.
pub open spec fn rebuilt_faces(v: BevelView) -> Seq<usize> {
    seq![v.side0, v.side1, v.end_a, v.end_b]
}

fn append_triangles(out: &mut Vec<u32>, tris: &Vec<Triangle>, base: usize, corners: usize)
    requires
        base + corners < u32::MAX,
        forall|i: int|
            0 <= i < tris@.len() ==> (#[trigger] tris@[i]).x < corners && tris@[i].y < corners
                && tris@[i].z < corners,
        forall|k: int| 0 <= k < old(out)@.len() ==> (#[trigger] old(out)@[k]) < base + corners,
    ensures
        final(out)@ == old(out)@ + triangle_indices(tris@, base as int, tris@.len()),
        forall|k: int| 0 <= k < final(out)@.len() ==> (#[trigger] final(out)@[k]) < base + corners,
{
    let ghost start = out@;
    let mut i: usize = 0;
    assert(start + triangle_indices(tris@, base as int, 0) =~= start);
    while i < tris.len()
        invariant
            i <= tris@.len(),
            base + corners < u32::MAX,
            forall|i: int|
                0 <= i < tris@.len() ==> (#[trigger] tris@[i]).x < corners && tris@[i].y < corners
                    && tris@[i].z < corners,
            out@ == start + triangle_indices(tris@, base as int, i as nat),
            forall|k: int| 0 <= k < out@.len() ==> (#[trigger] out@[k]) < base + corners,
        decreases tris@.len() - i,
    {
        let t = tris[i];
        let ghost was = out@;
        assert(tris@[i as int].x < corners);
        out.push((base + t.x as usize) as u32);
        out.push((base + t.y as usize) as u32);
        out.push((base + t.z as usize) as u32);
        i += 1;
        assert(out@ =~= was + seq![(base + t.x) as u32, (base + t.y) as u32, (base + t.z) as u32]);
        assert(out@ =~= start + triangle_indices(tris@, base as int, i as nat));
    }
}

/// Bevels an edge: the faces of the plan are taken out, and the polygons,
/// each cut into triangles by the caller, are put in with vertices of their
/// own. `None` when a polygon could not be cut into triangles.
pub fn bevel_edge<P>(
    mesh: &MeshData<P>,
    topo: &Topology,
    plan: &BevelPlan,
    polys: &Vec<Vec<BevelPoint>>,
    tris: &Vec<Vec<Triangle>>,
) -> (r: Option<MeshData<BevelVertex>>)
    requires
        mesh.wf(),
        describes(*topo, mesh.indices@, mesh.positions@.len()),
        tris@.len() == polys@.len(),
        forall|i: int, k: int|
            #![trigger tris@[i]@[k]]
            0 <= i < tris@.len() && 0 <= k < tris@[i]@.len() ==> tris@[i]@[k].x < polys@[i]@.len()
                && tris@[i]@[k].y < polys@[i]@.len() && tris@[i]@[k].z < polys@[i]@.len(),
        mesh.positions@.len() + polygon_vertices(
            polygons_view(polys@),
            polys@.len(),
        ).len() < u32::MAX,
    ensures
        r is Some <==> all_triangulated(polygons_view(polys@), tris@),
        r matches Some(m) ==> exists|full: MeshData<BevelVertex>| {
            &&& #[trigger] is_beveled(
                mesh.indices@,
                mesh.positions@.len(),
                mesh.seams@,
                *topo,
                rebuilt_faces(plan@),
                polygons_view(polys@),
                tris@,
                full,
            )
            &&& full.wf()
            &&& is_compacted(full, m)
        },
{
    let rebuilt = vec![plan.side0, plan.side1, plan.end_a, plan.end_b];
    assert(rebuilt@ =~= rebuilt_faces(plan@));
    let mut out: Vec<u32> = keep_triangles(&mesh.indices, topo, &rebuilt);
    let ghost kept = out@;
    let ghost pv = polygons_view(polys@);
    let vertices: usize = mesh.positions.len();
    let mut positions: Vec<BevelVertex> = Vec::new();
    while positions.len() < vertices
        invariant
            positions@.len() <= vertices < u32::MAX,
            positions@ == Seq::new(positions@.len(), |k: int| BevelVertex::Mesh(k as u32)),
        decreases vertices - positions@.len(),
    {
        positions.push(BevelVertex::Mesh(positions.len() as u32));
        assert(positions@ =~= Seq::new(positions@.len(), |k: int| BevelVertex::Mesh(k as u32)));
    }
    let ghost old_part = positions@;
    let mut n: usize = 0;
    assert(old_part + polygon_vertices(pv, 0) =~= old_part);
    assert(kept + polygon_triangles(pv, tris@, vertices as int, 0) =~= kept);
    while n < polys.len()
        invariant
            n <= polys@.len(),
            pv == polygons_view(polys@),
            tris@.len() == polys@.len(),
            old_part.len() == vertices,
            vertices == mesh.positions@.len(),
            forall|i: int, k: int|
                #![trigger tris@[i]@[k]]
                0 <= i < tris@.len() && 0 <= k < tris@[i]@.len() ==> tris@[i]@[k].x
                    < polys@[i]@.len() && tris@[i]@[k].y < polys@[i]@.len() && tris@[i]@[k].z
                    < polys@[i]@.len(),
            vertices + polygon_vertices(pv, polys@.len()).len() < u32::MAX,
            positions@ == old_part + polygon_vertices(pv, n as nat),
            out@ == kept + polygon_triangles(pv, tris@, vertices as int, n as nat),
            forall|k: int| 0 <= k < out@.len() ==> (#[trigger] out@[k]) < positions@.len(),
            forall|i: int|
                0 <= i < n ==> (#[trigger] pv[i]).len() >= 3 && tris@[i]@.len() > 0,
        decreases polys@.len() - n,
    {
        let poly = &polys[n];
        assert(pv[n as int] == poly@);
        if poly.len() < 3 || tris[n].len() == 0 {
            return None;
        }
        let base: usize = positions.len();
        proof {
            lemma_vertices_grow(pv, (n + 1) as nat, polys@.len());
        }
        let ghost was = positions@;
        let mut c: usize = 0;
        while c < poly.len()
            invariant
                c <= poly@.len(),
                positions@ == was + Seq::new(c as nat, |i: int| BevelVertex::New(poly@[i])),
            decreases poly@.len() - c,
        {
            positions.push(BevelVertex::New(poly[c]));
            c += 1;
            assert(positions@ =~= was + Seq::new(c as nat, |i: int| BevelVertex::New(poly@[i])));
        }
        assert(positions@ =~= old_part + polygon_vertices(pv, (n + 1) as nat));
        assert forall|i: int| 0 <= i < tris@[n as int]@.len() implies (
        #[trigger] tris@[n as int]@[i]).x < poly@.len() && tris@[n as int]@[i].y < poly@.len()
            && tris@[n as int]@[i].z < poly@.len() by {}
        let ghost was_out = out@;
        append_triangles(&mut out, &tris[n], base, poly.len());
        n += 1;
        assert(out@ =~= kept + polygon_triangles(pv, tris@, vertices as int, n as nat));
    }
    let mut seams: Vec<(u32, u32)> = Vec::new();
    let mut s: usize = 0;
    while s < mesh.seams.len()
        invariant
            s <= mesh.seams@.len(),
            seams@ == mesh.seams@.take(s as int),
        decreases mesh.seams@.len() - s,
    {
        seams.push(mesh.seams[s]);
        s += 1;
        assert(seams@ =~= mesh.seams@.take(s as int));
    }
    assert(seams@ =~= mesh.seams@);
    let mut full = MeshData { positions, indices: out, seams };
    assert(full.wf());
    let ghost whole = full;
    compact(&mut full);
    assert(is_beveled(
        mesh.indices@,
        mesh.positions@.len(),
        mesh.seams@,
        *topo,
        rebuilt_faces(plan@),
        pv,
        tris@,
        whole,
    ));
    Some(full)
}

proof fn lemma_vertices_grow(polys: Seq<Seq<BevelPoint>>, n: nat, m: nat)
    requires
        n <= m,
    ensures
        polygon_vertices(polys, n).len() <= polygon_vertices(polys, m).len(),
    decreases m,
{
    if n < m {
        lemma_vertices_grow(polys, n, (m - 1) as nat);
    }
}

/// No corner of a rebuilt polygon is an end of the beveled edge: both ends
/// are replaced by profiles everywhere.
pub proof fn law_ends_are_replaced(v: BevelView, strips: usize, flip: bool, i: int, k: int)
    requires
        0 <= i < polygons_of(v, strips, flip).len(),
        0 <= k < polygons_of(v, strips, flip)[i].len(),
    ensures
        polygons_of(v, strips, flip)[i][k] != BevelPoint::Vertex(v.a),
        polygons_of(v, strips, flip)[i][k] != BevelPoint::Vertex(v.b),
{
    lemma_end_polygon(v, v.end_loop_a, strips, v.end_loop_a.len());
    lemma_end_polygon(v, v.end_loop_b, strips, v.end_loop_b.len());
}

proof fn lemma_end_polygon(v: BevelView, lp: Seq<usize>, strips: usize, n: nat)
    ensures
        forall|k: int|
            0 <= k < end_polygon(v, lp, strips, n).len() ==> (#[trigger] end_polygon(
                v,
                lp,
                strips,
                n,
            )[k]) != BevelPoint::Vertex(v.a) && end_polygon(v, lp, strips, n)[k]
                != BevelPoint::Vertex(v.b),
    decreases n,
{
    if n > 0 {
        lemma_end_polygon(v, lp, strips, (n - 1) as nat);
    }
}

/// The place after `k` of a closed polygon of `len` corners.
pub open spec fn place_after(k: int, len: int) -> int {
    if k + 1 < len {
        k + 1
    } else {
        0
    }
}

/// The polygon has a side from `p` to `q`, in this direction.
pub open spec fn runs(poly: Seq<BevelPoint>, p: BevelPoint, q: BevelPoint) -> bool {
    exists|k: int|
        0 <= k < poly.len() && #[trigger] poly[k] == p && poly[place_after(k, poly.len() as int)]
            == q
}

/// Row `row` of the profile at the first or second end of the edge.
pub open spec fn row_of(second: bool, row: int) -> BevelPoint {
    BevelPoint::Profile { second, row: row as usize }
}

proof fn lemma_piece_at(v: BevelView, lp: Seq<usize>, strips: usize, n: nat, i: int, j: int)
    requires
        0 <= i < n <= lp.len(),
        0 <= j < end_piece(v, lp, strips, i).len(),
    ensures
        ({
            let at = end_polygon(v, lp, strips, i as nat).len();
            &&& at + end_piece(v, lp, strips, i).len() <= end_polygon(v, lp, strips, n).len()
            &&& i == n - 1 ==> at + end_piece(v, lp, strips, i).len() == end_polygon(
                v,
                lp,
                strips,
                n,
            ).len()
            &&& end_polygon(v, lp, strips, n)[at + j] == end_piece(v, lp, strips, i)[j]
        }),
    decreases n,
{
    if i < n - 1 {
        lemma_piece_at(v, lp, strips, (n - 1) as nat, i, j);
    }
}

/// From the last corner that stands for a place of the loop, the polygon goes
/// on to the first that stands for the next place.
proof fn lemma_pieces_join(v: BevelView, lp: Seq<usize>, strips: usize, i: int)
    requires
        strips <= 64,
        0 <= i < lp.len(),
    ensures
        runs(
            end_polygon(v, lp, strips, lp.len()),
            end_piece(v, lp, strips, i).last(),
            end_piece(v, lp, strips, place_after(i, lp.len() as int))[0],
        ),
{
    let n = lp.len();
    let poly = end_polygon(v, lp, strips, n);
    let next = place_after(i, n as int);
    let len = end_piece(v, lp, strips, i).len() as int;
    lemma_piece_at(v, lp, strips, n, i, len - 1);
    lemma_piece_at(v, lp, strips, n, next, 0);
    let k = end_polygon(v, lp, strips, i as nat).len() + len - 1;
    assert(poly[k] == end_piece(v, lp, strips, i).last());
    if i + 1 < n {
        assert(end_polygon(v, lp, strips, (i + 1) as nat).len() == k + 1);
        assert(poly[k + 1] == end_piece(v, lp, strips, next)[0]);
    } else {
        assert(end_polygon(v, lp, strips, 0).len() == 0);
    }
}

proof fn lemma_piece_runs(v: BevelView, lp: Seq<usize>, strips: usize, i: int, j: int)
    requires
        0 <= i < lp.len(),
        0 <= j < end_piece(v, lp, strips, i).len() - 1,
    ensures
        runs(
            end_polygon(v, lp, strips, lp.len()),
            end_piece(v, lp, strips, i)[j],
            end_piece(v, lp, strips, i)[j + 1],
        ),
{
    let n = lp.len();
    let poly = end_polygon(v, lp, strips, n);
    lemma_piece_at(v, lp, strips, n, i, j);
    lemma_piece_at(v, lp, strips, n, i, j + 1);
    let k = end_polygon(v, lp, strips, i as nat).len() + j;
    assert(poly[k] == end_piece(v, lp, strips, i)[j]);
    assert(poly[k + 1] == end_piece(v, lp, strips, i)[j + 1]);
}

/// In an end face, the profile takes the place of the end of the edge so that
/// row 0 stands next to the vertex that the corner slides toward on side 0,
/// and the last row next to that of side 1, with the rows in order between
/// them: the end face still meets both side faces.
pub proof fn law_profiles_meet_their_sides(
    v: BevelView,
    lp: Seq<usize>,
    strips: usize,
    second: bool,
    i: int,
)
    requires
        1 <= strips <= 64,
        v.a != v.b,
        0 <= i < lp.len(),
        ({
            let end = if second {
                v.b
            } else {
                v.a
            };
            let (t0, t1) = if second {
                (v.b0, v.b1)
            } else {
                (v.a0, v.a1)
            };
            let (p, n) = (before(lp, i), after(lp, i));
            &&& lp[i] == end
            &&& (p == t0 && n == t1) || (p == t1 && n == t0)
            &&& t0 != t1
            &&& t0 != v.a && t0 != v.b && t1 != v.a && t1 != v.b
        }),
    ensures
        ({
            let poly = end_polygon(v, lp, strips, lp.len());
            let (t0, t1) = if second {
                (v.b0, v.b1)
            } else {
                (v.a0, v.a1)
            };
            if before(lp, i) == t0 {
                &&& runs(poly, BevelPoint::Vertex(t0), row_of(second, 0))
                &&& runs(poly, row_of(second, strips as int), BevelPoint::Vertex(t1))
                &&& forall|j: int|
                    0 <= j < strips ==> runs(
                        poly,
                        #[trigger] row_of(second, j),
                        row_of(second, j + 1),
                    )
            } else {
                &&& runs(poly, BevelPoint::Vertex(t1), row_of(second, strips as int))
                &&& runs(poly, row_of(second, 0), BevelPoint::Vertex(t0))
                &&& forall|j: int|
                    0 <= j < strips ==> runs(
                        poly,
                        row_of(second, j + 1),
                        #[trigger] row_of(second, j),
                    )
            }
        }),
{
    let n = lp.len() as int;
    let poly = end_polygon(v, lp, strips, lp.len());
    let t0 = if second {
        v.b0
    } else {
        v.a0
    };
    let prev = if i == 0 {
        n - 1
    } else {
        i - 1
    };
    let piece = end_piece(v, lp, strips, i);
    assert(lp[prev] == before(lp, i));
    assert(lp[place_after(i, n)] == after(lp, i));
    lemma_pieces_join(v, lp, strips, prev);
    lemma_pieces_join(v, lp, strips, i);
    assert(end_piece(v, lp, strips, prev).last() == BevelPoint::Vertex(before(lp, i)));
    assert(end_piece(v, lp, strips, place_after(i, n))[0] == BevelPoint::Vertex(after(lp, i)));
    if before(lp, i) == t0 {
        assert forall|j: int| 0 <= j < strips implies runs(
            poly,
            #[trigger] row_of(second, j),
            row_of(second, j + 1),
        ) by {
            lemma_piece_runs(v, lp, strips, i, j);
            assert(piece[j] == row_of(second, j));
            assert(piece[j + 1] == row_of(second, j + 1));
        }
    } else {
        assert forall|j: int| 0 <= j < strips implies runs(
            poly,
            row_of(second, j + 1),
            #[trigger] row_of(second, j),
        ) by {
            let k = strips - j - 1;
            lemma_piece_runs(v, lp, strips, i, k);
            assert(piece[k] == row_of(second, j + 1));
            assert(piece[k + 1] == row_of(second, j));
        }
    }
}

/// The other sides of an end face stay as they are.
pub proof fn law_end_faces_keep_their_other_sides(
    v: BevelView,
    lp: Seq<usize>,
    strips: usize,
    i: int,
)
    requires
        strips <= 64,
        0 <= i < lp.len(),
        lp[i] != v.a && lp[i] != v.b,
        lp[place_after(i, lp.len() as int)] != v.a && lp[place_after(i, lp.len() as int)] != v.b,
    ensures
        runs(
            end_polygon(v, lp, strips, lp.len()),
            BevelPoint::Vertex(lp[i]),
            BevelPoint::Vertex(lp[place_after(i, lp.len() as int)]),
        ),
{
    lemma_pieces_join(v, lp, strips, i);
}

/// The polygons of a bevel: the two side faces, each with the ends of the edge
/// moved to its own row and nothing else changed; the end faces; and strips
/// that lead from row to row, the first along side 0, the last along side 1,
/// each sharing its far side with the next, backwards.
pub proof fn law_strips_bridge_the_sides(v: BevelView, strips: usize, flip: bool, j: int)
    requires
        1 <= strips <= 64,
        v.a != v.b,
        0 <= j < strips,
    ensures
        ({
            let polys = polygons_of(v, strips, flip);
            let ends: int = if v.end_b != v.end_a {
                2
            } else {
                1
            };
            let strip = polys[2 + ends + j];
            let (a, b) = (row_of(false, j), row_of(true, j));
            let (c, d) = (row_of(false, j + 1), row_of(true, j + 1));
            &&& polys.len() == 2 + ends + strips
            &&& polys[2] == end_polygon(v, v.end_loop_a, strips, v.end_loop_a.len())
            &&& ends == 2 ==> polys[3] == end_polygon(v, v.end_loop_b, strips, v.end_loop_b.len())
            &&& polys[0].len() == v.loop0.len()
            &&& polys[1].len() == v.loop1.len()
            &&& forall|i: int|
                0 <= i < v.loop0.len() ==> #[trigger] polys[0][i] == (if v.loop0[i] == v.a {
                    row_of(false, 0)
                } else if v.loop0[i] == v.b {
                    row_of(true, 0)
                } else {
                    BevelPoint::Vertex(v.loop0[i])
                })
            &&& forall|i: int|
                0 <= i < v.loop1.len() ==> #[trigger] polys[1][i] == (if v.loop1[i] == v.a {
                    row_of(false, strips as int)
                } else if v.loop1[i] == v.b {
                    row_of(true, strips as int)
                } else {
                    BevelPoint::Vertex(v.loop1[i])
                })
            &&& strip.len() == 4
            &&& !flip ==> runs(strip, a, b) && runs(strip, b, d) && runs(strip, d, c) && runs(
                strip,
                c,
                a,
            )
            &&& flip ==> runs(strip, b, a) && runs(strip, d, b) && runs(strip, c, d) && runs(
                strip,
                a,
                c,
            )
        }),
{
    let polys = polygons_of(v, strips, flip);
    let ends: int = if v.end_b != v.end_a {
        2
    } else {
        1
    };
    let strip = polys[2 + ends + j];
    assert(strip == strip_polygon(j, flip));
    let (a, b) = (row_of(false, j), row_of(true, j));
    let (c, d) = (row_of(false, j + 1), row_of(true, j + 1));
    if flip {
        assert(strip[0] == c && strip[1] == d && strip[2] == b && strip[3] == a);
    } else {
        assert(strip[0] == a && strip[1] == b && strip[2] == d && strip[3] == c);
    }
}

/// The edge between these two ends is on the outline of the face.
pub open spec fn bounds(topo: Topology, f: int, a: usize, b: usize) -> bool {
    exists|i: int|
        0 <= i < topo.faces@[f].outline@.len() && ((#[trigger] topo.faces@[f].outline@[i]).0 == a
            && topo.faces@[f].outline@[i].1 == b || topo.faces@[f].outline@[i].0 == b
            && topo.faces@[f].outline@[i].1 == a)
}

proof fn lemma_repeated(outline: Seq<(usize, usize)>, face: usize, key: (usize, usize), i: int)
    requires
        0 <= i < outline.len(),
        edge_key(outline[i].0, outline[i].1) == key,
    ensures
        repeat_face(outline, face, key).contains(face),
    decreases outline.len(),
{
    let now = repeat_face(outline, face, key);
    let rest = repeat_face(outline.drop_last(), face, key);
    if i < outline.len() - 1 {
        assert(outline.drop_last()[i] == outline[i]);
        lemma_repeated(outline.drop_last(), face, key, i);
        let k = choose|k: int| 0 <= k < rest.len() && rest[k] == face;
        assert(now[k] == face);
    } else {
        assert(now[rest.len() as int] == face);
    }
}

proof fn lemma_over(topo: Topology, upto: nat, key: (usize, usize), f: int, i: int)
    requires
        0 <= f < upto <= topo.faces@.len(),
        0 <= i < topo.faces@[f].outline@.len(),
        edge_key(topo.faces@[f].outline@[i].0, topo.faces@[f].outline@[i].1) == key,
    ensures
        faces_over(topo, upto, key).contains(f as usize),
    decreases upto,
{
    let rest = faces_over(topo, (upto - 1) as nat, key);
    let outline = topo.faces@[upto - 1].outline@;
    let more = repeat_face(outline, (upto - 1) as usize, key);
    let now = faces_over(topo, upto, key);
    if f < upto - 1 {
        lemma_over(topo, (upto - 1) as nat, key, f, i);
        let k = choose|k: int| 0 <= k < rest.len() && rest[k] == f as usize;
        assert(now[k] == f as usize);
    } else {
        lemma_repeated(outline, f as usize, key, i);
        let k = choose|k: int| 0 <= k < more.len() && more[k] == f as usize;
        assert(now[rest.len() + k] == f as usize);
    }
}

proof fn lemma_end_face(topo: Topology, f1: usize, f2: usize, w: usize, upto: nat, f: int)
    requires
        0 <= f < upto <= topo.faces@.len(),
        topo.faces@.len() <= usize::MAX,
        f != f1 && f != f2,
        touches(topo, f, w),
    ensures
        end_faces_at(topo, f1, f2, w, upto).contains(f as usize),
    decreases upto,
{
    let rest = end_faces_at(topo, f1, f2, w, (upto - 1) as nat);
    let now = end_faces_at(topo, f1, f2, w, upto);
    if f < upto - 1 {
        lemma_end_face(topo, f1, f2, w, (upto - 1) as nat, f);
        let k = choose|k: int| 0 <= k < rest.len() && rest[k] == f as usize;
        assert(now[k] == f as usize);
    } else {
        assert(now[rest.len() as int] == f as usize);
    }
}

proof fn lemma_end_faces(topo: Topology, f1: usize, f2: usize, w: usize, upto: nat)
    requires
        upto <= topo.faces@.len() <= usize::MAX,
    ensures
        forall|k: int|
            0 <= k < end_faces_at(topo, f1, f2, w, upto).len() ==> {
                let f = #[trigger] end_faces_at(topo, f1, f2, w, upto)[k];
                f < upto && f != f1 && f != f2 && touches(topo, f as int, w)
            },
    decreases upto,
{
    if upto > 0 {
        lemma_end_faces(topo, f1, f2, w, (upto - 1) as nat);
        let rest = end_faces_at(topo, f1, f2, w, (upto - 1) as nat);
        let now = end_faces_at(topo, f1, f2, w, upto);
        assert forall|k: int| 0 <= k < now.len() implies {
            let f = #[trigger] now[k];
            f < upto && f != f1 && f != f2 && touches(topo, f as int, w)
        } by {
            if k < rest.len() {
                assert(now[k] == rest[k]);
            }
        }
    }
}

/// A bevel rebuilds all faces at the edge: those that have the edge are the
/// two sides, and those that touch one of its ends are the sides and the end
/// face there.
pub proof fn law_bevel_rebuilds_the_faces_at_the_edge(
    topo: Topology,
    turned: Seq<bool>,
    edge: (usize, usize),
    f: int,
)
    requires
        topo.faces@.len() <= usize::MAX,
        plan_of(topo, turned, edge) is Some,
        0 <= f < topo.faces@.len(),
    ensures
        ({
            let v = plan_of(topo, turned, edge)->0;
            &&& (v.a == edge.0 && v.b == edge.1) || (v.a == edge.1 && v.b == edge.0)
            &&& bounds(topo, f, v.a, v.b) ==> f == v.side0 || f == v.side1
            &&& touches(topo, f, v.a) ==> f == v.side0 || f == v.side1 || f == v.end_a
            &&& touches(topo, f, v.b) ==> f == v.side0 || f == v.side1 || f == v.end_b
            &&& touches(topo, v.end_a as int, v.a)
            &&& touches(topo, v.end_b as int, v.b)
            &&& v.end_a != v.side0 && v.end_a != v.side1
            &&& v.end_b != v.side0 && v.end_b != v.side1
        }),
{
    let v = plan_of(topo, turned, edge)->0;
    let n = topo.faces@.len();
    let key = (v.a, v.b);
    let sides = faces_over(topo, n, key);
    lemma_end_faces(topo, v.side0, v.side1, v.a, n);
    lemma_end_faces(topo, v.side0, v.side1, v.b, n);
    let ends_a = end_faces_at(topo, v.side0, v.side1, v.a, n);
    let ends_b = end_faces_at(topo, v.side0, v.side1, v.b, n);
    assert(ends_a[0] == v.end_a && ends_b[0] == v.end_b);
    if bounds(topo, f, v.a, v.b) {
        let outline = topo.faces@[f].outline@;
        let i = choose|i: int|
            0 <= i < outline.len() && ((#[trigger] outline[i]).0 == v.a && outline[i].1 == v.b
                || outline[i].0 == v.b && outline[i].1 == v.a);
        lemma_over(topo, n, key, f, i);
        let k = choose|k: int| 0 <= k < sides.len() && sides[k] == f as usize;
        assert(sides[k] == f as usize);
    }
    if f != v.side0 && f != v.side1 {
        if touches(topo, f, v.a) {
            lemma_end_face(topo, v.side0, v.side1, v.a, n, f);
        }
        if touches(topo, f, v.b) {
            lemma_end_face(topo, v.side0, v.side1, v.b, n, f);
        }
    }
}

/// The corners slide away from the edge: in the loop of a side, the vertex
/// that a corner slides toward is the neighbor of the end of the edge that is
/// not its other end.
pub proof fn law_corners_slide_away_from_the_edge(
    topo: Topology,
    turned: Seq<bool>,
    edge: (usize, usize),
)
    requires
        plan_of(topo, turned, edge) is Some,
    ensures
        ({
            let v = plan_of(topo, turned, edge)->0;
            &&& lies_between(v.loop0, v.b, v.a, v.a0)
            &&& lies_between(v.loop0, v.a, v.b, v.b0)
            &&& lies_between(v.loop1, v.b, v.a, v.a1)
            &&& lies_between(v.loop1, v.a, v.b, v.b1)
            &&& face_loop_of(topo, v.side0 as int, turned[v.side0 as int]) == Some(v.loop0)
            &&& face_loop_of(topo, v.side1 as int, turned[v.side1 as int]) == Some(v.loop1)
            &&& face_loop_of(topo, v.end_a as int, turned[v.end_a as int]) == Some(v.end_loop_a)
            &&& face_loop_of(topo, v.end_b as int, turned[v.end_b as int]) == Some(v.end_loop_b)
        }),
{
    let v = plan_of(topo, turned, edge)->0;
    lemma_first_place(v.loop0, v.a);
    lemma_first_place(v.loop0, v.b);
    lemma_first_place(v.loop1, v.a);
    lemma_first_place(v.loop1, v.b);
    lemma_lies_between(v.loop0, v.b, v.a);
    lemma_lies_between(v.loop0, v.a, v.b);
    lemma_lies_between(v.loop1, v.b, v.a);
    lemma_lies_between(v.loop1, v.a, v.b);
}

/// Along the loop, in one direction or the other, `w` comes right after `p`
/// and right before `q`.
pub open spec fn lies_between(lp: Seq<usize>, p: usize, w: usize, q: usize) -> bool {
    exists|i: int|
        0 <= i < lp.len() && #[trigger] lp[i] == w && {
            let prev = lp[if i == 0 {
                lp.len() - 1
            } else {
                i - 1
            }];
            let next = lp[place_after(i, lp.len() as int)];
            (prev == p && next == q) || (prev == q && next == p)
        }
}

proof fn lemma_lies_between(lp: Seq<usize>, other: usize, w: usize)
    requires
        slide_target(lp, w, other) is Some,
    ensures
        lies_between(lp, other, w, slide_target(lp, w, other)->0),
{
    lemma_first_place(lp, w);
    let i = first_place(lp, w)->0;
    assert(lp[i] == w);
}

/// An edge between two faces with simple loops that both run along it, at each
/// of whose ends exactly one more face meets, with a simple loop in which the
/// end lies between its slide targets, can be beveled, whichever way it is
/// written.
pub proof fn law_box_corners_can_be_beveled(
    topo: Topology,
    turned: Seq<bool>,
    edge: (usize, usize),
    side0: int,
    side1: int,
    end_a: int,
    end_b: int,
)
    requires
        ({
            let (a, b) = edge_key(edge.0, edge.1);
            let n = topo.faces@.len();
            let loop_at = |f: int| face_loop_of(topo, f, turned[f]);
            &&& faces_over(topo, n, (a, b)) == seq![side0 as usize, side1 as usize]
            &&& 0 <= side0 < n && 0 <= side1 < n && 0 <= end_a < n && 0 <= end_b < n
            &&& n <= usize::MAX
            &&& loop_at(side0) is Some && loop_at(side1) is Some
            &&& loop_at(end_a) is Some && loop_at(end_b) is Some
            &&& end_faces_at(topo, side0 as usize, side1 as usize, a, n) == seq![end_a as usize]
            &&& end_faces_at(topo, side0 as usize, side1 as usize, b, n) == seq![end_b as usize]
            &&& slide_target(loop_at(side0)->0, a, b) is Some
            &&& slide_target(loop_at(side0)->0, b, a) is Some
            &&& slide_target(loop_at(side1)->0, a, b) is Some
            &&& slide_target(loop_at(side1)->0, b, a) is Some
            &&& sits_between(
                loop_at(end_a)->0,
                a,
                slide_target(loop_at(side0)->0, a, b)->0,
                slide_target(loop_at(side1)->0, a, b)->0,
            )
            &&& sits_between(
                loop_at(end_b)->0,
                b,
                slide_target(loop_at(side0)->0, b, a)->0,
                slide_target(loop_at(side1)->0, b, a)->0,
            )
        }),
    ensures
        plan_of(topo, turned, edge) is Some,
        plan_of(topo, turned, (edge.1, edge.0)) == plan_of(topo, turned, edge),
        plan_of(topo, turned, edge)->0.side0 == side0,
        plan_of(topo, turned, edge)->0.side1 == side1,
        plan_of(topo, turned, edge)->0.end_a == end_a,
        plan_of(topo, turned, edge)->0.end_b == end_b,
{
    let (a, b) = edge_key(edge.0, edge.1);
    assert(edge_key(edge.1, edge.0) == (a, b));
}

/// A bevel has at least one strip and at most sixty-four, and otherwise as
/// many as are asked for; asking for more never gives fewer.
pub proof fn law_strips_are_counted(segments: usize, more: usize)
    requires
        segments <= more,
    ensures
        1 <= strip_count(segments) <= 64,
        1 <= segments <= 64 ==> strip_count(segments) == segments,
        strip_count(segments) <= strip_count(more),
{
}

/// The room for a bevel is one of the four slides, and none of them is
/// shorter.
pub proof fn law_room_is_the_shortest_slide(a0: Scalar, a1: Scalar, b0: Scalar, b1: Scalar)
    requires
        a0.finite() && a1.finite() && b0.finite() && b1.finite(),
    ensures
        ({
            let m = shorter(shorter(shorter(shorter(Scalar { bits: INFINITY_BITS }, a0), a1), b0), b1);
            &&& m == a0 || m == a1 || m == b0 || m == b1
            &&& !a0.less(m) && !a1.less(m) && !b0.less(m) && !b1.less(m)
        }),
{
}

/// Every corner of every new polygon is a vertex of its own, after those of
/// the polygons before it and in the order of its polygon.
pub proof fn law_every_corner_is_a_vertex(polys: Seq<Seq<BevelPoint>>, n: nat, k: int, i: int)
    requires
        0 <= k < n <= polys.len(),
        0 <= i < polys[k].len(),
    ensures
        ({
            let at = polygon_vertices(polys, k as nat).len() + i;
            &&& at < polygon_vertices(polys, n).len()
            &&& polygon_vertices(polys, n)[at] == BevelVertex::New(polys[k][i])
        }),
        polygon_vertices(polys, (k + 1) as nat).len() == polygon_vertices(polys, k as nat).len()
            + polys[k].len(),
    decreases n,
{
    if k < n - 1 {
        law_every_corner_is_a_vertex(polys, (n - 1) as nat, k, i);
    }
}

proof fn lemma_triangle_indices(tris: Seq<Triangle>, base: int, n: nat, j: int)
    requires
        0 <= j < n <= tris.len(),
    ensures
        triangle_indices(tris, base, n).len() == 3 * n,
        triangle_indices(tris, base, n)[3 * j] == (base + tris[j].x) as u32,
        triangle_indices(tris, base, n)[3 * j + 1] == (base + tris[j].y) as u32,
        triangle_indices(tris, base, n)[3 * j + 2] == (base + tris[j].z) as u32,
    decreases n,
{
    if n > 1 {
        lemma_triangle_indices(
            tris,
            base,
            (n - 1) as nat,
            if j < n - 1 {
                j
            } else {
                0
            },
        );
    } else {
        assert(triangle_indices(tris, base, 0).len() == 0);
    }
}

/// The triangles of a polygon join its own corners, in the order that they
/// are given in.
pub proof fn law_triangles_join_their_own_corners(
    polys: Seq<Seq<BevelPoint>>,
    tris: Seq<Vec<Triangle>>,
    base: nat,
    k: int,
    j: int,
)
    requires
        0 <= k < polys.len(),
        tris.len() == polys.len(),
        0 <= j < tris[k]@.len(),
        tris[k]@[j].x < polys[k].len(),
        tris[k]@[j].y < polys[k].len(),
        tris[k]@[j].z < polys[k].len(),
        base + polygon_vertices(polys, polys.len()).len() <= u32::MAX,
    ensures
        ({
            let before = polygon_triangles(polys, tris, base as int, k as nat).len();
            let all = polygon_triangles(polys, tris, base as int, (k + 1) as nat);
            let corners = polygon_vertices(polys, polys.len());
            let t = tris[k]@[j];
            &&& all.len() == before + 3 * tris[k]@.len()
            &&& corners[all[before + 3 * j] - base] == BevelVertex::New(polys[k][t.x as int])
            &&& corners[all[before + 3 * j + 1] - base] == BevelVertex::New(polys[k][t.y as int])
            &&& corners[all[before + 3 * j + 2] - base] == BevelVertex::New(polys[k][t.z as int])
        }),
{
    let t = tris[k]@[j];
    let offset = base + polygon_vertices(polys, k as nat).len();
    lemma_triangle_indices(tris[k]@, offset as int, tris[k]@.len(), j);
    law_every_corner_is_a_vertex(polys, polys.len(), k, t.x as int);
    law_every_corner_is_a_vertex(polys, polys.len(), k, t.y as int);
    law_every_corner_is_a_vertex(polys, polys.len(), k, t.z as int);
}

/// The faces at the edge are rebuilt and no other: the two that share it and
/// the two at its ends.
pub proof fn law_only_faces_at_the_edge_are_rebuilt(v: BevelView, f: usize)
    ensures
        rebuilt_faces(v).contains(f) <==> f == v.side0 || f == v.side1 || f == v.end_a || f
            == v.end_b,
{
    let r = rebuilt_faces(v);
    assert(r[0] == v.side0 && r[1] == v.side1 && r[2] == v.end_a && r[3] == v.end_b);
}

} // verus!
