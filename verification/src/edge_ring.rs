//! Edge rings: the strip of quads that a loop cut passes through.

use vstd::prelude::*;
use crate::topology::{edge_key, ekey, joined, Topology};

verus! {

/// One quad that the loop cut passes through: the cut enters across `entry`
/// and leaves across `exit`, both oriented so that equal interpolation
/// parameters connect (the point at t on `entry` joins the point at t on
/// `exit`). `aligned` says whether `entry` runs along the face's loop.
#[derive(Clone, Copy, Debug, PartialEq, Eq)]
pub struct RingFace {
    pub face: usize,
    pub entry: (usize, usize),
    pub exit: (usize, usize),
    pub aligned: bool,
}

/// The faces over the edge `key`, in face order: a face occurs once for each
/// outline edge with that key.
pub open spec fn faces_over(topo: Topology, upto: nat, key: (usize, usize)) -> Seq<usize>
    decreases upto,
{
    if upto == 0 {
        seq![]
    } else {
        let f = (upto - 1) as nat;
        faces_over(topo, f, key) + repeat_face(topo.faces@[f as int].outline@, f as usize, key)
    }
}

/// `face`, once for each edge of `outline` with the key `key`.
pub open spec fn repeat_face(
    outline: Seq<(usize, usize)>,
    face: usize,
    key: (usize, usize),
) -> Seq<usize>
    decreases outline.len(),
{
    if outline.len() == 0 {
        seq![]
    } else {
        let before = repeat_face(outline.drop_last(), face, key);
        if edge_key(outline.last().0, outline.last().1) == key {
            before.push(face)
        } else {
            before
        }
    }
}

/// The faces whose outline holds the welded edge `edge`, in either direction.
pub fn edge_face_map(topo: &Topology, edge: (usize, usize)) -> (r: Vec<usize>)
    ensures
        r@ == faces_over(*topo, topo.faces@.len(), edge_key(edge.0, edge.1)),
{
    let key = ekey(edge.0, edge.1);
    let mut r: Vec<usize> = Vec::new();
    let mut f: usize = 0;
    while f < topo.faces.len()
        invariant
            f <= topo.faces@.len(),
            key == edge_key(edge.0, edge.1),
            r@ == faces_over(*topo, f as nat, key),
        decreases topo.faces@.len() - f,
    {
        let outline = &topo.faces[f].outline;
        let ghost before = r@;
        let mut i: usize = 0;
        assert(before =~= before + repeat_face(outline@.take(0), f, key));
        while i < outline.len()
            invariant
                i <= outline@.len(),
                r@ == before + repeat_face(outline@.take(i as int), f, key),
            decreases outline@.len() - i,
        {
            let e = ekey(outline[i].0, outline[i].1);
            i += 1;
            assert(outline@.take(i as int).drop_last() =~= outline@.take(i - 1));
            if e.0 == key.0 && e.1 == key.1 {
                r.push(f);
                assert(r@ =~= before + repeat_face(outline@.take(i as int), f, key));
            }
        }
        assert(outline@.take(i as int) =~= outline@);
        f += 1;
    }
    r
}

/// What a cut that enters `quad` over its side `i` leaves by, if that side
/// is the oriented edge `(u, v)` or its reverse.
pub open spec fn cross_side(quad: Seq<usize>, i: int, u: usize, v: usize) -> Option<
    ((usize, usize), bool),
> {
    let (p, q) = (quad[i % 4], quad[(i + 1) % 4]);
    let (c, d) = (quad[(i + 2) % 4], quad[(i + 3) % 4]);
    if (p, q) == (u, v) {
        Some(((d, c), true))
    } else if (p, q) == (v, u) {
        Some(((c, d), false))
    } else {
        None
    }
}

/// The first side of `quad` at or after `i` that is the edge `(u, v)`, and
/// how the cut leaves.
pub open spec fn cross_from(quad: Seq<usize>, i: int, u: usize, v: usize) -> Option<
    ((usize, usize), bool),
>
    decreases 4 - i,
{
    if i >= 4 {
        None
    } else if cross_side(quad, i, u, v) is Some {
        cross_side(quad, i, u, v)
    } else {
        cross_from(quad, i + 1, u, v)
    }
}

/// How a cut crosses a loop from the oriented edge `(u, v)`: only quads are
/// crossed, to the opposite edge.
pub open spec fn crossing(quad: Seq<usize>, u: usize, v: usize) -> Option<
    ((usize, usize), bool),
> {
    if quad.len() == 4 {
        cross_from(quad, 0, u, v)
    } else {
        None
    }
}

/// Crosses a quad entering over the oriented edge `(u, v)`: the exit is the
/// opposite loop edge, oriented so that the endpoint sharing a side with `u`
/// comes first.
pub fn cross_quad(loop4: &Vec<usize>, u: usize, v: usize) -> (r: Option<((usize, usize), bool)>)
    ensures
        r == crossing(loop4@, u, v),
{
    if loop4.len() != 4 {
        return None;
    }
    let mut i: usize = 0;
    while i < 4
        invariant
            i <= 4,
            loop4@.len() == 4,
            crossing(loop4@, u, v) == cross_from(loop4@, i as int, u, v),
        decreases 4 - i,
    {
        let p = loop4[i];
        let q = loop4[(i + 1) % 4];
        let c = loop4[(i + 2) % 4];
        let d = loop4[(i + 3) % 4];
        if p == u && q == v {
            return Some(((d, c), true));
        }
        if p == v && q == u {
            return Some(((c, d), false));
        }
        i += 1;
    }
    None
}

/// The first of `faces` that is not yet visited.
pub open spec fn first_unvisited(faces: Seq<usize>, visited: Seq<usize>) -> Option<usize>
    decreases faces.len(),
{
    if faces.len() == 0 {
        None
    } else if !visited.contains(faces[0]) {
        Some(faces[0])
    } else {
        first_unvisited(faces.drop_first(), visited)
    }
}

/// Loops of the faces, `None` for a face that has no simple loop.
pub open spec fn loops_view(loops: Seq<Option<Vec<usize>>>) -> Seq<Option<Seq<usize>>> {
    Seq::new(
        loops.len(),
        |i: int| match loops[i] {
            Some(l) => Some(l@),
            None => None,
        },
    )
}

/// How the cut crosses `face` from `edge`, if it can.
pub open spec fn crossing_of(
    loops: Seq<Option<Seq<usize>>>,
    face: usize,
    edge: (usize, usize),
) -> Option<((usize, usize), bool)> {
    if face < loops.len() && loops[face as int] is Some {
        crossing(loops[face as int]->0, edge.0, edge.1)
    } else {
        None
    }
}

/// The walk out of one side of `edge`, through opposite edges of quads,
/// until it meets a visited face, a non-quad or a boundary. Yields the ring
/// faces and all faces visited after it. A face that cannot be crossed
/// counts as visited.
pub open spec fn side_walk(
    topo: Topology,
    loops: Seq<Option<Seq<usize>>>,
    edge: (usize, usize),
    visited: Seq<usize>,
) -> (Seq<RingFace>, Seq<usize>)
    decreases topo.faces@.len() - visited.len(),
{
    let over = faces_over(topo, topo.faces@.len(), edge_key(edge.0, edge.1));
    if visited.len() >= topo.faces@.len() {
        (seq![], visited)
    } else if let Some(face) = first_unvisited(over, visited) {
        if let Some((exit, aligned)) = crossing_of(loops, face, edge) {
            let rest = side_walk(topo, loops, exit, visited.push(face));
            (seq![RingFace { face, entry: edge, exit, aligned }] + rest.0, rest.1)
        } else {
            (seq![], visited.push(face))
        }
    } else {
        (seq![], visited)
    }
}

/// The ring of quads perpendicular to `start`: out of one side of the edge,
/// then out of the other.
pub open spec fn ring_of(
    topo: Topology,
    loops: Seq<Option<Seq<usize>>>,
    start: (usize, usize),
) -> Seq<RingFace> {
    let one = side_walk(topo, loops, start, seq![]);
    one.0 + side_walk(topo, loops, start, one.1).0
}

fn find_unvisited(faces: &Vec<usize>, visited: &Vec<usize>) -> (r: Option<usize>)
    ensures
        r == first_unvisited(faces@, visited@),
{
    let mut i: usize = 0;
    assert(faces@.skip(0) =~= faces@);
    while i < faces.len()
        invariant
            i <= faces@.len(),
            first_unvisited(faces@, visited@) == first_unvisited(faces@.skip(i as int), visited@),
        decreases faces@.len() - i,
    {
        let f = faces[i];
        assert(faces@.skip(i as int)[0] == f);
        assert(faces@.skip(i as int).drop_first() =~= faces@.skip(i + 1));
        if !contains(visited, f) {
            return Some(f);
        }
        i += 1;
    }
    None
}

/// Is `x` one of `v`?
pub(crate) fn contains(v: &Vec<usize>, x: usize) -> (r: bool)
    ensures
        r == v@.contains(x),
{
    let mut i: usize = 0;
    while i < v.len()
        invariant
            i <= v@.len(),
            forall|k: int| 0 <= k < i ==> v@[k] != x,
        decreases v@.len() - i,
    {
        if v[i] == x {
            assert(v@[i as int] == x);
            return true;
        }
        i += 1;
    }
    false
}

fn walk_side(
    topo: &Topology,
    loops: &Vec<Option<Vec<usize>>>,
    start: (usize, usize),
    ring: &mut Vec<RingFace>,
    visited: &mut Vec<usize>,
)
    ensures
        final(ring)@ == old(ring)@ + side_walk(
            *topo,
            loops_view(loops@),
            start,
            old(visited)@,
        ).0,
        final(visited)@ == side_walk(*topo, loops_view(loops@), start, old(visited)@).1,
{
    let mut edge = start;
    let ghost lv = loops_view(loops@);
    let ghost whole = side_walk(*topo, lv, start, visited@);
    let ghost first = ring@;
    while visited.len() < topo.faces.len()
        invariant_except_break
            first + whole.0 == ring@ + side_walk(*topo, lv, edge, visited@).0,
            whole.1 == side_walk(*topo, lv, edge, visited@).1,
        invariant
            lv == loops_view(loops@),
        ensures
            first + whole.0 == ring@,
            whole.1 == visited@,
        decreases topo.faces@.len() - visited@.len(),
    {
        let ghost here = side_walk(*topo, lv, edge, visited@);
        let over = edge_face_map(topo, edge);
        match find_unvisited(&over, visited) {
            None => {
                assert(here.0 =~= seq![]);
                assert(ring@ + here.0 =~= ring@);
                break;
            },
            Some(face) => {
                visited.push(face);
                let crossed = if face < loops.len() {
                    match &loops[face] {
                        Some(l) => cross_quad(l, edge.0, edge.1),
                        None => None,
                    }
                } else {
                    None
                };
                assert(crossed == crossing_of(lv, face, edge));
                match crossed {
                    None => {
                        assert(ring@ + here.0 =~= ring@);
                        break;
                    },
                    Some((exit, aligned)) => {
                        let ghost rest = side_walk(*topo, lv, exit, visited@);
                        let ghost before = ring@;
                        let r = RingFace { face, entry: edge, exit, aligned };
                        ring.push(r);
                        edge = exit;
                        assert(before + here.0 =~= ring@ + rest.0);
                    },
                }
            },
        }
    }
}

/// Walks the ring of quads perpendicular to `start`: out of both sides of
/// the edge, through opposite edges of each quad, until the ring closes or
/// hits a non-quad or a boundary.
pub fn walk_ring(
    topo: &Topology,
    loops: &Vec<Option<Vec<usize>>>,
    start: (usize, usize),
) -> (ring: Vec<RingFace>)
    ensures
        ring@ == ring_of(*topo, loops_view(loops@), start),
{
    let mut ring: Vec<RingFace> = Vec::new();
    let mut visited: Vec<usize> = Vec::new();
    walk_side(topo, loops, start, &mut ring, &mut visited);
    walk_side(topo, loops, start, &mut ring, &mut visited);
    assert(ring@ =~= ring_of(*topo, loops_view(loops@), start));
    ring
}

proof fn lemma_first_unvisited(faces: Seq<usize>, visited: Seq<usize>)
    ensures
        first_unvisited(faces, visited) matches Some(f) ==> faces.contains(f) && !visited.contains(
            f,
        ),
    decreases faces.len(),
{
    if faces.len() > 0 && visited.contains(faces[0]) {
        let rest = faces.drop_first();
        lemma_first_unvisited(rest, visited);
        if let Some(f) = first_unvisited(rest, visited) {
            let k = choose|k: int| 0 <= k < rest.len() && rest[k] == f;
            assert(faces[k + 1] == f);
        }
    }
}

/// The faces of a ring part, in order.
pub open spec fn ring_faces(ring: Seq<RingFace>) -> Seq<usize> {
    Seq::new(ring.len(), |i: int| ring[i].face)
}

proof fn lemma_side_walk(
    topo: Topology,
    loops: Seq<Option<Seq<usize>>>,
    edge: (usize, usize),
    visited: Seq<usize>,
)
    ensures
        ({
            let (ring, after) = side_walk(topo, loops, edge, visited);
            &&& visited.is_prefix_of(after)
            &&& forall|i: int|
                0 <= i < ring.len() ==> {
                    &&& !visited.contains((#[trigger] ring[i]).face)
                    &&& after.contains(ring[i].face)
                    &&& crossing_of(loops, ring[i].face, ring[i].entry) == Some(
                        (ring[i].exit, ring[i].aligned),
                    )
                }
            &&& forall|i: int, j: int|
                0 <= i < j < ring.len() ==> (#[trigger] ring[i]).face != (#[trigger] ring[j]).face
            &&& ring.len() > 0 ==> ring[0].entry == edge
            &&& forall|i: int|
                0 <= i < ring.len() - 1 ==> #[trigger] ring[i + 1].entry == ring[i].exit
        }),
    decreases topo.faces@.len() - visited.len(),
{
    let over = faces_over(topo, topo.faces@.len(), edge_key(edge.0, edge.1));
    let (ring, after) = side_walk(topo, loops, edge, visited);
    lemma_first_unvisited(over, visited);
    if visited.len() < topo.faces@.len() {
        if let Some(face) = first_unvisited(over, visited) {
            if let Some((exit, aligned)) = crossing_of(loops, face, edge) {
                let v2 = visited.push(face);
                let (rest, end) = side_walk(topo, loops, exit, v2);
                lemma_side_walk(topo, loops, exit, v2);
                assert(v2[visited.len() as int] == face);
                assert(after[visited.len() as int] == face);
                assert forall|i: int| 0 <= i < ring.len() implies {
                    &&& !visited.contains((#[trigger] ring[i]).face)
                    &&& after.contains(ring[i].face)
                    &&& crossing_of(loops, ring[i].face, ring[i].entry) == Some(
                        (ring[i].exit, ring[i].aligned),
                    )
                } by {
                    if i > 0 {
                        assert(ring[i] == rest[i - 1]);
                        if visited.contains(ring[i].face) {
                            let k = choose|k: int|
                                0 <= k < visited.len() && visited[k] == ring[i].face;
                            assert(v2[k] == ring[i].face);
                        }
                    }
                }
                assert forall|i: int, j: int| 0 <= i < j < ring.len() implies (
                #[trigger] ring[i]).face != (#[trigger] ring[j]).face by {
                    assert(ring[j] == rest[j - 1]);
                    if i > 0 {
                        assert(ring[i] == rest[i - 1]);
                    } else {
                        assert(v2.contains(face));
                    }
                }
                assert forall|i: int| 0 <= i < ring.len() - 1 implies
                    #[trigger] ring[i + 1].entry == ring[i].exit by {
                    assert(ring[i + 1] == rest[i]);
                    if i > 0 {
                        assert(ring[i] == rest[i - 1]);
                        assert(rest[(i - 1) + 1].entry == rest[i - 1].exit);
                    }
                }
            }
        }
    }
}

/// The ring is walked from the start edge to either side, and on each side
/// every quad is entered over the edge by which the one before was left.
pub proof fn law_ring_is_walked_edge_by_edge(
    topo: Topology,
    loops: Seq<Option<Seq<usize>>>,
    start: (usize, usize),
)
    ensures
        ({
            let ring = ring_of(topo, loops, start);
            let turn = side_walk(topo, loops, start, seq![]).0.len();
            &&& turn <= ring.len()
            &&& forall|i: int|
                #![trigger ring[i]]
                0 <= i < ring.len() ==> ring[i].entry == (if i == 0 || i == turn {
                    start
                } else {
                    ring[i - 1].exit
                })
        }),
{
    let (one, seen) = side_walk(topo, loops, start, seq![]);
    let (two, _) = side_walk(topo, loops, start, seen);
    lemma_side_walk(topo, loops, start, seq![]);
    lemma_side_walk(topo, loops, start, seen);
    let ring = ring_of(topo, loops, start);
    assert(ring == one + two);
    assert forall|i: int| #![trigger ring[i]] 0 <= i < ring.len() implies ring[i].entry == (if i
        == 0 || i == one.len() {
        start
    } else {
        ring[i - 1].exit
    }) by {
        if i < one.len() {
            assert(ring[i] == one[i]);
            if i > 0 {
                assert(ring[i - 1] == one[i - 1]);
                assert(one[(i - 1) + 1].entry == one[i - 1].exit);
            }
        } else {
            let k = i - one.len();
            assert(ring[i] == two[k]);
            if k > 0 {
                assert(ring[i - 1] == two[k - 1]);
                assert(two[(k - 1) + 1].entry == two[k - 1].exit);
            }
        }
    }
}

/// A ring meets each face at most once, and every face of it is a quad that
/// the cut crosses from its entry edge to its exit edge.
pub proof fn law_ring_crosses_distinct_quads(
    topo: Topology,
    loops: Seq<Option<Seq<usize>>>,
    start: (usize, usize),
)
    ensures
        ring_faces(ring_of(topo, loops, start)).no_duplicates(),
        forall|i: int|
            #![trigger ring_of(topo, loops, start)[i]]
            0 <= i < ring_of(topo, loops, start).len() ==> {
                let r = ring_of(topo, loops, start)[i];
                crossing_of(loops, r.face, r.entry) == Some((r.exit, r.aligned))
            },
{
    let (one, seen) = side_walk(topo, loops, start, seq![]);
    let (two, _) = side_walk(topo, loops, start, seen);
    lemma_side_walk(topo, loops, start, seq![]);
    lemma_side_walk(topo, loops, start, seen);
    let ring = ring_of(topo, loops, start);
    assert(ring == one + two);
    let faces = ring_faces(ring);
    assert forall|i: int, j: int| 0 <= i < j < faces.len() implies faces[i] != faces[j] by {
        if j < one.len() {
            assert(ring[i] == one[i] && ring[j] == one[j]);
        } else {
            assert(ring[j] == two[j - one.len()]);
            if i < one.len() {
                assert(ring[i] == one[i]);
            } else {
                assert(ring[i] == two[i - one.len()]);
            }
        }
    }
    assert forall|i: int| #![trigger ring[i]] 0 <= i < ring.len() implies crossing_of(
        loops,
        ring[i].face,
        ring[i].entry,
    ) == Some((ring[i].exit, ring[i].aligned)) by {
        if i < one.len() {
            assert(ring[i] == one[i]);
        } else {
            assert(ring[i] == two[i - one.len()]);
        }
    }
}

/// The loop runs from `p` straight to `q`.
pub open spec fn has_step(quad: Seq<usize>, p: usize, q: usize) -> bool {
    exists|i: int|
        0 <= i < quad.len() && #[trigger] quad[i] == p && (if i + 1 < quad.len() {
            quad[i + 1]
        } else {
            quad[0]
        }) == q
}

/// A cut enters a quad over any of its four sides, named either way round,
/// and over nothing else. It leaves by the opposite side: the end named first
/// is joined to the first end of the entry, the second to the second. The
/// crossing is aligned where the loop runs along the entry as it is named.
pub proof fn law_quads_are_left_by_the_opposite_side(quad: Seq<usize>, u: usize, v: usize)
    requires
        quad.no_duplicates(),
    ensures
        crossing(quad, u, v) is Some <==> quad.len() == 4 && (has_step(quad, u, v) || has_step(
            quad,
            v,
            u,
        )),
        crossing(quad, u, v) matches Some(((a, b), aligned)) ==> {
            &&& a != u && a != v && b != u && b != v && a != b
            &&& aligned <==> has_step(quad, u, v)
            &&& aligned ==> has_step(quad, v, b) && has_step(quad, b, a) && has_step(quad, a, u)
            &&& !aligned ==> has_step(quad, u, a) && has_step(quad, a, b) && has_step(quad, b, v)
        },
{
    reveal_with_fuel(cross_from, 5);
    if quad.len() == 4 {
        let (a, b, c, d) = (quad[0], quad[1], quad[2], quad[3]);
        assert(has_step(quad, a, b));
        assert(has_step(quad, b, c));
        assert(has_step(quad, c, d));
        assert(has_step(quad, d, a)) by {
            assert(quad[3] == d);
        }
        assert forall|p: usize, q: usize| #[trigger] has_step(quad, p, q) implies (p, q) == (a, b)
            || (p, q) == (b, c) || (p, q) == (c, d) || (p, q) == (d, a) by {
            let i = choose|i: int|
                0 <= i < quad.len() && #[trigger] quad[i] == p && (if i + 1 < quad.len() {
                    quad[i + 1]
                } else {
                    quad[0]
                }) == q;
            assert(i == 0 || i == 1 || i == 2 || i == 3);
        }
    }
}

/// A crossing undone: entered by the side it left by, a quad is left by the
/// side it was entered over, and the loop runs the other way along it.
pub proof fn law_crossing_back(quad: Seq<usize>, u: usize, v: usize)
    requires
        quad.no_duplicates(),
        crossing(quad, u, v) is Some,
    ensures
        ({
            let ((a, b), aligned) = crossing(quad, u, v)->0;
            crossing(quad, a, b) == Some(((u, v), !aligned))
        }),
{
    reveal_with_fuel(cross_from, 5);
    let (a, b, c, d) = (quad[0], quad[1], quad[2], quad[3]);
    assert(a != b && a != c && a != d && b != c && b != d && c != d);
}

proof fn lemma_repeat_face(outline: Seq<(usize, usize)>, face: usize, a: usize, b: usize)
    ensures
        forall|k: int|
            0 <= k < repeat_face(outline, face, edge_key(a, b)).len() ==> #[trigger] repeat_face(
                outline,
                face,
                edge_key(a, b),
            )[k] == face,
        repeat_face(outline, face, edge_key(a, b)).len() > 0 <==> joined(outline, a, b),
    decreases outline.len(),
{
    if outline.len() > 0 {
        let rest = outline.drop_last();
        lemma_repeat_face(rest, face, a, b);
        if joined(rest, a, b) {
            let i = choose|i: int|
                0 <= i < rest.len() && (#[trigger] rest[i] == (a, b) || rest[i] == (b, a));
            assert(outline[i] == rest[i]);
        }
        if joined(outline, a, b) {
            let i = choose|i: int|
                0 <= i < outline.len() && (#[trigger] outline[i] == (a, b) || outline[i] == (b, a));
            if i < rest.len() {
                assert(rest[i] == outline[i]);
            }
        }
        let last = outline[outline.len() - 1];
        assert(outline.last() == last);
    }
}

/// The faces over an edge are exactly those whose outline joins its two
/// ends, in face order.
pub proof fn law_faces_over_an_edge(topo: Topology, upto: nat, a: usize, b: usize, f: usize)
    requires
        upto <= topo.faces@.len() <= usize::MAX,
    ensures
        faces_over(topo, upto, edge_key(a, b)).contains(f) <==> f < upto && joined(
            topo.faces@[f as int].outline@,
            a,
            b,
        ),
        forall|i: int, j: int|
            0 <= i < j < faces_over(topo, upto, edge_key(a, b)).len() ==> #[trigger] faces_over(
                topo,
                upto,
                edge_key(a, b),
            )[i] <= #[trigger] faces_over(topo, upto, edge_key(a, b))[j],
        forall|i: int|
            0 <= i < faces_over(topo, upto, edge_key(a, b)).len() ==> #[trigger] faces_over(
                topo,
                upto,
                edge_key(a, b),
            )[i] < upto,
    decreases upto,
{
    if upto > 0 {
        let last = (upto - 1) as usize;
        let key = edge_key(a, b);
        law_faces_over_an_edge(topo, last as nat, a, b, f);
        lemma_repeat_face(topo.faces@[last as int].outline@, last, a, b);
        let before = faces_over(topo, last as nat, key);
        let more = repeat_face(topo.faces@[last as int].outline@, last, key);
        let all = faces_over(topo, upto, key);
        assert(all == before + more);
        if before.contains(f) {
            let k = choose|k: int| 0 <= k < before.len() && before[k] == f;
            assert(all[k] == f);
        }
        if all.contains(f) && !before.contains(f) {
            let k = choose|k: int| 0 <= k < all.len() && all[k] == f;
            assert(all[k] == more[k - before.len()]);
        }
        if f == last && more.len() > 0 {
            assert(more[0] == f);
            assert(all[before.len() as int] == f);
        }
        assert forall|i: int, j: int| 0 <= i < j < all.len() implies #[trigger] all[i]
            <= #[trigger] all[j] by {
            if j >= before.len() {
                assert(all[j] == more[j - before.len()]);
                if i >= before.len() {
                    assert(all[i] == more[i - before.len()]);
                } else {
                    assert(all[i] == before[i]);
                }
            } else {
                assert(all[i] == before[i] && all[j] == before[j]);
            }
        }
        assert forall|i: int| 0 <= i < all.len() implies #[trigger] all[i] < upto by {
            if i >= before.len() {
                assert(all[i] == more[i - before.len()]);
            } else {
                assert(all[i] == before[i]);
            }
        }
    }
}

proof fn lemma_all_visited(faces: Seq<usize>, visited: Seq<usize>)
    ensures
        first_unvisited(faces, visited) is None ==> forall|f: usize| #[trigger]
            faces.contains(f) ==> visited.contains(f),
    decreases faces.len(),
{
    if faces.len() > 0 {
        let rest = faces.drop_first();
        lemma_all_visited(rest, visited);
        if first_unvisited(faces, visited) is None {
            assert forall|f: usize| #[trigger] faces.contains(f) implies visited.contains(f) by {
                let k = choose|k: int| 0 <= k < faces.len() && faces[k] == f;
                if k > 0 {
                    assert(rest[k - 1] == f);
                    assert(rest.contains(f));
                }
            }
        }
    }
}

/// A walk that came to the edge `end` with the faces `after` behind it
/// cannot go on: every face over that edge has been met, or the last one met
/// is over it and cannot be crossed.
pub open spec fn is_at_its_end(
    topo: Topology,
    loops: Seq<Option<Seq<usize>>>,
    end: (usize, usize),
    after: Seq<usize>,
) -> bool {
    let over = faces_over(topo, topo.faces@.len(), edge_key(end.0, end.1));
    ||| after.len() >= topo.faces@.len()
    ||| forall|f: usize| #[trigger] over.contains(f) ==> after.contains(f)
    ||| over.contains(after.last()) && crossing_of(loops, after.last(), end) is None
}

/// The walk stops only where it must.
pub proof fn law_ring_goes_on_while_it_can(
    topo: Topology,
    loops: Seq<Option<Seq<usize>>>,
    edge: (usize, usize),
    visited: Seq<usize>,
)
    ensures
        ({
            let (ring, after) = side_walk(topo, loops, edge, visited);
            is_at_its_end(
                topo,
                loops,
                if ring.len() > 0 {
                    ring.last().exit
                } else {
                    edge
                },
                after,
            )
        }),
    decreases topo.faces@.len() - visited.len(),
{
    let over = faces_over(topo, topo.faces@.len(), edge_key(edge.0, edge.1));
    lemma_first_unvisited(over, visited);
    lemma_all_visited(over, visited);
    let (ring, after) = side_walk(topo, loops, edge, visited);
    if visited.len() < topo.faces@.len() {
        if let Some(face) = first_unvisited(over, visited) {
            if let Some((exit, aligned)) = crossing_of(loops, face, edge) {
                law_ring_goes_on_while_it_can(topo, loops, exit, visited.push(face));
                let rest = side_walk(topo, loops, exit, visited.push(face));
                assert(after == rest.1);
                assert(ring.len() == rest.0.len() + 1);
                if rest.0.len() > 0 {
                    assert(ring.last() == rest.0.last());
                } else {
                    assert(ring.last().exit == exit);
                }
            } else {
                assert(after.last() == face);
                assert(is_at_its_end(topo, loops, edge, after));
            }
        } else {
            assert(is_at_its_end(topo, loops, edge, after));
        }
    }
}

} // verus!
