//! Topology-editing operators for edit mode: loop cut.
//!
//! The operators decide which vertices and triangles the edited mesh has;
//! a new vertex is described by the welded vertices it lies between, for the
//! caller to place.

use vstd::prelude::*;
use crate::edge_ring::{
    contains, cross_from, crossing, crossing_of, law_ring_crosses_distinct_quads, loops_view,
    ring_faces, ring_of, walk_ring, RingFace,
};
use crate::mesh_data::{compact, is_compacted, MeshData};
use crate::seqs::lemma_distinct_indices;
use crate::topology::{
    edge_key, ekey, face_loop, face_loop_of, joined, law_loop_is_simple_and_closed, loop_of,
    Topology,
};

verus! {

/// Where a vertex of an edited mesh comes from.
#[derive(Clone, Copy, PartialEq, Eq, Structural, Debug)]
pub enum VertexSource {
    /// The mesh vertex with this number, where it was.
    Mesh(u32),
    /// `step / of` of the way from one welded vertex to another.
    Between { from: usize, to: usize, step: usize, of: usize },
}

/// The mesh vertex of triangle `t` that is welded to `w`, the last corner
/// first.
pub open spec fn tri_corner(
    indices: Seq<u32>,
    weld_of: Seq<usize>,
    t: int,
    w: usize,
) -> Option<u32> {
    if weld_of[indices[3 * t + 2] as int] == w {
        Some(indices[3 * t + 2])
    } else if weld_of[indices[3 * t + 1] as int] == w {
        Some(indices[3 * t + 1])
    } else if weld_of[indices[3 * t] as int] == w {
        Some(indices[3 * t])
    } else {
        None
    }
}

/// The mesh vertex that a face with triangles `tris` has at the welded
/// vertex `w`.
pub open spec fn corner(
    indices: Seq<u32>,
    weld_of: Seq<usize>,
    tris: Seq<usize>,
    w: usize,
) -> Option<u32>
    decreases tris.len(),
{
    if tris.len() == 0 {
        None
    } else if tri_corner(indices, weld_of, tris.last() as int, w) is Some {
        tri_corner(indices, weld_of, tris.last() as int, w)
    } else {
        corner(indices, weld_of, tris.drop_last(), w)
    }
}

/// The corner of face `f` of the topology at `w`.
pub open spec fn face_corner(indices: Seq<u32>, topo: Topology, f: int, w: usize) -> Option<u32> {
    corner(indices, topo.weld_of@, topo.faces@[f].tris@, w)
}

/// The topology has as many vertices and triangles as the mesh, and its
/// faces consist of these triangles.
pub open spec fn names_triangles(topo: Topology, indices: Seq<u32>, vertices: nat) -> bool {
    &&& topo.weld_of@.len() == vertices
    &&& indices.len() == 3 * topo.tris@.len()
    &&& forall|f: int, i: int|
        0 <= f < topo.faces@.len() && 0 <= i < topo.faces@[f].tris@.len()
            ==> #[trigger] topo.faces@[f].tris@[i] < topo.tris@.len()
}

/// `topo` is the welded topology of a mesh with these indices and this many
/// vertices: triangles match, and each outline vertex of a face is a corner
/// of one of its triangles.
pub open spec fn describes(topo: Topology, indices: Seq<u32>, vertices: nat) -> bool {
    &&& names_triangles(topo, indices, vertices)
    &&& forall|f: int, i: int|
        #![trigger topo.faces@[f].outline@[i]]
        0 <= f < topo.faces@.len() && 0 <= i < topo.faces@[f].outline@.len() ==> {
            &&& face_corner(indices, topo, f, topo.faces@[f].outline@[i].0) is Some
            &&& face_corner(indices, topo, f, topo.faces@[f].outline@[i].1) is Some
        }
}

fn corner_of(indices: &Vec<u32>, topo: &Topology, f: usize, w: usize) -> (r: Option<u32>)
    requires
        f < topo.faces@.len(),
        names_triangles(*topo, indices@, topo.weld_of@.len()),
        forall|i: int| 0 <= i < indices@.len() ==> (#[trigger] indices@[i]) < topo.weld_of@.len(),
    ensures
        r == face_corner(indices@, *topo, f as int, w),
{
    let tris = &topo.faces[f].tris;
    let mut n: usize = tris.len();
    let total: usize = indices.len();
    assert(tris@.take(n as int) =~= tris@);
    while n > 0
        invariant
            total == indices@.len(),
            n <= tris@.len(),
            f < topo.faces@.len(),
            *tris == topo.faces@[f as int].tris,
            names_triangles(*topo, indices@, topo.weld_of@.len()),
            forall|i: int|
                0 <= i < indices@.len() ==> (#[trigger] indices@[i]) < topo.weld_of@.len(),
            corner(indices@, topo.weld_of@, tris@, w) == corner(
                indices@,
                topo.weld_of@,
                tris@.take(n as int),
                w,
            ),
        decreases n,
    {
        let t = tris[n - 1];
        assert(topo.faces@[f as int].tris@[n - 1] < topo.tris@.len());
        assert(tris@.take(n as int).last() == t);
        assert(tris@.take(n as int).drop_last() =~= tris@.take(n - 1));
        let c: u32 = indices[3 * t + 2];
        if topo.weld_of[c as usize] == w {
            return Some(c);
        }
        let b: u32 = indices[3 * t + 1];
        if topo.weld_of[b as usize] == w {
            return Some(b);
        }
        let a: u32 = indices[3 * t];
        if topo.weld_of[a as usize] == w {
            return Some(a);
        }
        n -= 1;
    }
    None
}

fn faces_name_triangles(topo: &Topology, triangles: usize) -> (r: bool)
    ensures
        r == (forall|f: int, i: int|
            0 <= f < topo.faces@.len() && 0 <= i < topo.faces@[f].tris@.len()
                ==> #[trigger] topo.faces@[f].tris@[i] < triangles),
{
    let mut f: usize = 0;
    while f < topo.faces.len()
        invariant
            f <= topo.faces@.len(),
            forall|g: int, k: int|
                0 <= g < f && 0 <= k < topo.faces@[g].tris@.len()
                    ==> #[trigger] topo.faces@[g].tris@[k] < triangles,
        decreases topo.faces@.len() - f,
    {
        let mut i: usize = 0;
        while i < topo.faces[f].tris.len()
            invariant
                f < topo.faces@.len(),
                i <= topo.faces@[f as int].tris@.len(),
                forall|k: int|
                    0 <= k < i ==> #[trigger] topo.faces@[f as int].tris@[k] < triangles,
            decreases topo.faces@[f as int].tris@.len() - i,
        {
            if topo.faces[f].tris[i] >= triangles {
                assert(topo.faces@[f as int].tris@[i as int] >= triangles);
                return false;
            }
            i += 1;
        }
        f += 1;
    }
    true
}

/// Is `topo` a welded topology of this mesh?
pub fn is_described<P>(topo: &Topology, mesh: &MeshData<P>) -> (r: bool)
    requires
        mesh.wf(),
    ensures
        r == describes(*topo, mesh.indices@, mesh.positions@.len()),
{
    let indices = &mesh.indices;
    if topo.weld_of.len() != mesh.positions.len() || indices.len() % 3 != 0
        || indices.len() / 3 != topo.tris.len() || !faces_name_triangles(topo, topo.tris.len()) {
        return false;
    }
    let mut f: usize = 0;
    while f < topo.faces.len()
        invariant
            f <= topo.faces@.len(),
            mesh.wf(),
            *indices == mesh.indices,
            names_triangles(*topo, indices@, mesh.positions@.len()),
            forall|g: int, k: int|
                #![trigger topo.faces@[g].outline@[k]]
                0 <= g < f && 0 <= k < topo.faces@[g].outline@.len() ==> {
                    &&& face_corner(indices@, *topo, g, topo.faces@[g].outline@[k].0) is Some
                    &&& face_corner(indices@, *topo, g, topo.faces@[g].outline@[k].1) is Some
                },
        decreases topo.faces@.len() - f,
    {
        let mut i: usize = 0;
        while i < topo.faces[f].outline.len()
            invariant
                f < topo.faces@.len(),
                i <= topo.faces@[f as int].outline@.len(),
                mesh.wf(),
                *indices == mesh.indices,
                names_triangles(*topo, indices@, mesh.positions@.len()),
                forall|k: int|
                    #![trigger topo.faces@[f as int].outline@[k]]
                    0 <= k < i ==> {
                        let side = topo.faces@[f as int].outline@[k];
                        &&& face_corner(indices@, *topo, f as int, side.0) is Some
                        &&& face_corner(indices@, *topo, f as int, side.1) is Some
                    },
            decreases topo.faces@[f as int].outline@.len() - i,
        {
            let (a, b) = topo.faces[f].outline[i];
            if corner_of(indices, topo, f, a).is_none() || corner_of(indices, topo, f, b).is_none() {
                assert(topo.faces@[f as int].outline@[i as int] == (a, b));
                return false;
            }
            i += 1;
        }
        f += 1;
    }
    true
}

/// The ring faces that the cut enters or leaves over the edge `key`, in ring
/// order.
pub open spec fn cut_faces(ring: Seq<RingFace>, key: (usize, usize)) -> Seq<usize>
    decreases ring.len(),
{
    if ring.len() == 0 {
        seq![]
    } else {
        let r = ring.last();
        let before = cut_faces(ring.drop_last(), key);
        if edge_key(r.entry.0, r.entry.1) == key || edge_key(r.exit.0, r.exit.1) == key {
            before.push(r.face)
        } else {
            before
        }
    }
}

/// Faces `f` and `g` use the same mesh vertex at the welded vertex `w`.
pub open spec fn share_corner(indices: Seq<u32>, topo: Topology, f: usize, g: usize, w: usize) -> bool {
    &&& face_corner(indices, topo, f as int, w) is Some
    &&& face_corner(indices, topo, f as int, w) == face_corner(indices, topo, g as int, w)
}

/// The edge is smooth-shaded: exactly two ring faces meet at it, and they
/// share the mesh vertices at both its ends.
pub open spec fn is_smooth(
    indices: Seq<u32>,
    topo: Topology,
    ring: Seq<RingFace>,
    key: (usize, usize),
) -> bool {
    let fs = cut_faces(ring, key);
    &&& fs.len() == 2
    &&& share_corner(indices, topo, fs[0], fs[1], key.0)
    &&& share_corner(indices, topo, fs[0], fs[1], key.1)
}

/// A point of the cut: `step` of `cuts + 1` equal parts along the oriented
/// edge, as a corner of `face`.
#[derive(Clone, Copy, PartialEq, Eq, Structural, Debug)]
pub struct CutPoint {
    pub face: usize,
    pub from: usize,
    pub to: usize,
    pub step: usize,
}

/// What makes two cut points one vertex: the edge, the place on it counted
/// from its smaller end, and the face unless the edge is smooth.
#[derive(Clone, Copy, PartialEq, Eq, Debug)]
pub struct CutTag {
    pub low: usize,
    pub high: usize,
    pub step: usize,
    pub face: Option<usize>,
}

/// The tag of a cut point.
pub open spec fn tag_of(
    indices: Seq<u32>,
    topo: Topology,
    ring: Seq<RingFace>,
    cuts: usize,
    p: CutPoint,
) -> CutTag {
    let key = edge_key(p.from, p.to);
    CutTag {
        low: key.0,
        high: key.1,
        step: if (p.from, p.to) == key {
            p.step
        } else {
            (cuts + 1 - p.step) as usize
        },
        face: if is_smooth(indices, topo, ring, key) {
            None
        } else {
            Some(p.face)
        },
    }
}

/// The tags of these points.
pub open spec fn tags_of(
    indices: Seq<u32>,
    topo: Topology,
    ring: Seq<RingFace>,
    cuts: usize,
    points: Seq<CutPoint>,
) -> Seq<CutTag> {
    Seq::new(points.len(), |i: int| tag_of(indices, topo, ring, cuts, points[i]))
}

/// The new vertices that these points call for, in order of first call: one
/// for each tag, none for a point at an end of its edge.
pub open spec fn new_points(
    indices: Seq<u32>,
    topo: Topology,
    ring: Seq<RingFace>,
    cuts: usize,
    points: Seq<CutPoint>,
) -> Seq<CutPoint>
    decreases points.len(),
{
    if points.len() == 0 {
        seq![]
    } else {
        let before = new_points(indices, topo, ring, cuts, points.drop_last());
        let p = points.last();
        if p.step == 0 || p.step == cuts + 1 || tags_of(indices, topo, ring, cuts, before).contains(
            tag_of(indices, topo, ring, cuts, p),
        ) {
            before
        } else {
            before.push(p)
        }
    }
}

/// `v` is the vertex of the edited mesh at the point `p`, where the new
/// vertices `points` are numbered from `base` on.
pub open spec fn is_vertex_at(
    indices: Seq<u32>,
    topo: Topology,
    ring: Seq<RingFace>,
    cuts: usize,
    base: nat,
    points: Seq<CutPoint>,
    p: CutPoint,
    v: u32,
) -> bool {
    if p.step == 0 {
        face_corner(indices, topo, p.face as int, p.from) == Some(v)
    } else if p.step == cuts + 1 {
        face_corner(indices, topo, p.face as int, p.to) == Some(v)
    } else {
        &&& base <= v < base + points.len()
        &&& tag_of(indices, topo, ring, cuts, points[v - base]) == tag_of(
            indices,
            topo,
            ring,
            cuts,
            p,
        )
    }
}

/// One strip of a cut quad: between step `step` and the next.
#[derive(Clone, Copy, PartialEq, Eq, Debug)]
pub struct Strip {
    pub ring_face: RingFace,
    pub step: usize,
}

impl Strip {
    /// The four corners of the strip: two on the entry edge, two on the exit
    /// edge.
    pub open spec fn points(self) -> Seq<CutPoint> {
        let r = self.ring_face;
        let next = (self.step + 1) as usize;
        seq![
            CutPoint { face: r.face, from: r.entry.0, to: r.entry.1, step: self.step },
            CutPoint { face: r.face, from: r.entry.0, to: r.entry.1, step: next },
            CutPoint { face: r.face, from: r.exit.0, to: r.exit.1, step: self.step },
            CutPoint { face: r.face, from: r.exit.0, to: r.exit.1, step: next },
        ]
    }
}

/// The strips of the whole ring, quad by quad.
pub open spec fn strips_of(ring: Seq<RingFace>, cuts: usize) -> Seq<Strip>
    decreases ring.len(),
{
    if ring.len() == 0 {
        seq![]
    } else {
        strips_of(ring.drop_last(), cuts) + quad_strips(ring.last(), cuts + 1)
    }
}

/// The first `count` strips of one quad.
pub open spec fn quad_strips(r: RingFace, count: int) -> Seq<Strip> {
    Seq::new(count as nat, |j: int| Strip { ring_face: r, step: j as usize })
}

/// The corners of the strips, four each.
pub open spec fn strip_points(strips: Seq<Strip>) -> Seq<CutPoint>
    decreases strips.len(),
{
    if strips.len() == 0 {
        seq![]
    } else {
        strip_points(strips.drop_last()) + strips.last().points()
    }
}

/// `six` are the two triangles of a strip with corners `a0`, `a1` on the
/// entry and `b0`, `b1` on the exit edge, wound with the quad.
pub open spec fn strip_triangles(aligned: bool, a0: u32, a1: u32, b0: u32, b1: u32) -> Seq<u32> {
    if aligned {
        seq![a0, a1, b1, a0, b1, b0]
    } else {
        seq![a0, b1, a1, a0, b0, b1]
    }
}

/// The corners of a strip as vertices of the edited mesh.
#[derive(Clone, Copy, PartialEq, Eq, Structural, Debug)]
pub struct StripCorners {
    pub a0: u32,
    pub a1: u32,
    pub b0: u32,
    pub b1: u32,
}

/// The triangles of all strips with these corners.
pub open spec fn triangles_of(strips: Seq<Strip>, corners: Seq<StripCorners>) -> Seq<u32>
    decreases strips.len(),
{
    if strips.len() == 0 {
        seq![]
    } else {
        let c = corners.last();
        triangles_of(strips.drop_last(), corners.drop_last()) + strip_triangles(
            strips.last().ring_face.aligned,
            c.a0,
            c.a1,
            c.b0,
            c.b1,
        )
    }
}

/// The seams that the cut adds: the near side of every strip but the first
/// of its quad.
pub open spec fn seams_of(strips: Seq<Strip>, corners: Seq<StripCorners>) -> Seq<(u32, u32)>
    decreases strips.len(),
{
    if strips.len() == 0 {
        seq![]
    } else {
        let before = seams_of(strips.drop_last(), corners.drop_last());
        let c = corners.last();
        if strips.last().step > 0 {
            before.push((c.a0, c.b0))
        } else {
            before
        }
    }
}

/// `corners` are the vertices at the corners of the strips.
pub open spec fn are_corners(
    indices: Seq<u32>,
    topo: Topology,
    ring: Seq<RingFace>,
    cuts: usize,
    base: nat,
    points: Seq<CutPoint>,
    strips: Seq<Strip>,
    corners: Seq<StripCorners>,
) -> bool {
    &&& corners.len() == strips.len()
    &&& forall|i: int|
        #![trigger corners[i]]
        0 <= i < strips.len() ==> {
            let p = strips[i].points();
            &&& is_vertex_at(indices, topo, ring, cuts, base, points, p[0], corners[i].a0)
            &&& is_vertex_at(indices, topo, ring, cuts, base, points, p[1], corners[i].a1)
            &&& is_vertex_at(indices, topo, ring, cuts, base, points, p[2], corners[i].b0)
            &&& is_vertex_at(indices, topo, ring, cuts, base, points, p[3], corners[i].b1)
        }
}

/// The face that triangle `t` belongs to among the first `upto`: the last
/// that lists it.
pub open spec fn face_of_triangle(topo: Topology, upto: nat, t: usize) -> Option<usize>
    decreases upto,
{
    if upto == 0 {
        None
    } else if topo.faces@[upto - 1].tris@.contains(t) {
        Some((upto - 1) as usize)
    } else {
        face_of_triangle(topo, (upto - 1) as nat, t)
    }
}

/// The triangles, among the first `count`, of faces that are not `rebuilt`.
pub open spec fn kept_triangles(
    indices: Seq<u32>,
    topo: Topology,
    rebuilt: Seq<usize>,
    count: nat,
) -> Seq<u32>
    decreases count,
{
    if count == 0 {
        seq![]
    } else {
        let t = count - 1;
        let before = kept_triangles(indices, topo, rebuilt, (count - 1) as nat);
        let face = face_of_triangle(topo, topo.faces@.len(), t as usize);
        if face is Some && rebuilt.contains(face->0) {
            before
        } else {
            before + seq![indices[3 * t], indices[3 * t + 1], indices[3 * t + 2]]
        }
    }
}

/// `full` is the mesh with the ring cut, before unused vertices are dropped:
/// the old vertices and the new ones, the triangles outside the ring and
/// those of the strips, the old seams and those of the cut.
pub open spec fn is_cut(
    indices: Seq<u32>,
    vertices: nat,
    seams: Seq<(u32, u32)>,
    topo: Topology,
    ring: Seq<RingFace>,
    cuts: usize,
    corners: Seq<StripCorners>,
    full: MeshData<VertexSource>,
) -> bool {
    let strips = strips_of(ring, cuts);
    let points = new_points(indices, topo, ring, cuts, strip_points(strips));
    &&& are_corners(indices, topo, ring, cuts, vertices, points, strips, corners)
    &&& full.positions@ == Seq::new(vertices, |i: int| VertexSource::Mesh(i as u32)) + Seq::new(
        points.len(),
        |i: int|
            VertexSource::Between {
                from: points[i].from,
                to: points[i].to,
                step: points[i].step,
                of: (cuts + 1) as usize,
            },
    )
    &&& full.indices@ == kept_triangles(indices, topo, ring_faces(ring), topo.tris@.len())
        + triangles_of(strips, corners)
    &&& full.seams@ == seams + seams_of(strips, corners)
}

fn faces_of_cut(ring: &Vec<RingFace>, key: (usize, usize)) -> (r: Vec<usize>)
    ensures
        r@ == cut_faces(ring@, key),
{
    let mut r: Vec<usize> = Vec::new();
    let mut i: usize = 0;
    while i < ring.len()
        invariant
            i <= ring@.len(),
            r@ == cut_faces(ring@.take(i as int), key),
        decreases ring@.len() - i,
    {
        let q = ring[i];
        let a = ekey(q.entry.0, q.entry.1);
        let b = ekey(q.exit.0, q.exit.1);
        if (a.0 == key.0 && a.1 == key.1) || (b.0 == key.0 && b.1 == key.1) {
            r.push(q.face);
        }
        i += 1;
        assert(ring@.take(i as int).drop_last() =~= ring@.take(i - 1));
        assert(ring@.take(i as int).last() == q);
    }
    assert(ring@.take(i as int) =~= ring@);
    r
}

/// The ring consists of faces of the topology.
pub open spec fn within(ring: Seq<RingFace>, topo: Topology) -> bool {
    forall|i: int| 0 <= i < ring.len() ==> (#[trigger] ring[i]).face < topo.faces@.len()
}

proof fn lemma_cut_faces_within(ring: Seq<RingFace>, topo: Topology, key: (usize, usize))
    requires
        within(ring, topo),
    ensures
        forall|i: int|
            0 <= i < cut_faces(ring, key).len() ==> (#[trigger] cut_faces(ring, key)[i])
                < topo.faces@.len(),
    decreases ring.len(),
{
    if ring.len() > 0 {
        let rest = ring.drop_last();
        assert forall|i: int| 0 <= i < rest.len() implies (#[trigger] rest[i]).face
            < topo.faces@.len() by {
            assert(rest[i] == ring[i]);
        }
        lemma_cut_faces_within(rest, topo, key);
        let before = cut_faces(rest, key);
        let now = cut_faces(ring, key);
        assert(ring[ring.len() - 1].face < topo.faces@.len());
        assert forall|i: int| 0 <= i < now.len() implies (#[trigger] now[i]) < topo.faces@.len() by {
            if i < before.len() {
                assert(now[i] == before[i]);
            }
        }
    }
}

/// The mesh that the topology describes.
pub open spec fn valid(topo: Topology, indices: Seq<u32>) -> bool {
    &&& describes(topo, indices, topo.weld_of@.len())
    &&& forall|i: int| 0 <= i < indices.len() ==> (#[trigger] indices[i]) < topo.weld_of@.len()
}

fn shares_corner(indices: &Vec<u32>, topo: &Topology, f: usize, g: usize, w: usize) -> (r: bool)
    requires
        f < topo.faces@.len(),
        g < topo.faces@.len(),
        valid(*topo, indices@),
    ensures
        r == share_corner(indices@, *topo, f, g, w),
{
    match (corner_of(indices, topo, f, w), corner_of(indices, topo, g, w)) {
        (Some(x), Some(y)) => x == y,
        _ => false,
    }
}

fn tag(
    indices: &Vec<u32>,
    topo: &Topology,
    ring: &Vec<RingFace>,
    cuts: usize,
    p: CutPoint,
) -> (r: CutTag)
    requires
        valid(*topo, indices@),
        within(ring@, *topo),
        p.step <= cuts + 1,
        cuts < usize::MAX,
    ensures
        r == tag_of(indices@, *topo, ring@, cuts, p),
{
    let key = ekey(p.from, p.to);
    let fs = faces_of_cut(ring, key);
    proof {
        lemma_cut_faces_within(ring@, *topo, key);
    }
    let smooth = fs.len() == 2 && shares_corner(indices, topo, fs[0], fs[1], key.0)
        && shares_corner(indices, topo, fs[0], fs[1], key.1);
    CutTag {
        low: key.0,
        high: key.1,
        step: if p.from == key.0 && p.to == key.1 {
            p.step
        } else {
            cuts + 1 - p.step
        },
        face: if smooth {
            None
        } else {
            Some(p.face)
        },
    }
}

fn same_tag(a: &CutTag, b: &CutTag) -> (r: bool)
    ensures
        r == (*a == *b),
{
    if a.low != b.low || a.high != b.high || a.step != b.step {
        return false;
    }
    match (a.face, b.face) {
        (None, None) => true,
        (Some(x), Some(y)) => x == y,
        _ => false,
    }
}

proof fn lemma_corner_is_vertex(
    indices: Seq<u32>,
    weld_of: Seq<usize>,
    tris: Seq<usize>,
    w: usize,
)
    requires
        forall|i: int| 0 <= i < indices.len() ==> (#[trigger] indices[i]) < weld_of.len(),
        forall|i: int| 0 <= i < tris.len() ==> 3 * (#[trigger] tris[i]) + 2 < indices.len(),
    ensures
        corner(indices, weld_of, tris, w) matches Some(v) ==> v < weld_of.len(),
    decreases tris.len(),
{
    if tris.len() > 0 {
        let t = tris[tris.len() - 1];
        assert(3 * t + 2 < indices.len());
        let rest = tris.drop_last();
        assert forall|i: int| 0 <= i < rest.len() implies 3 * (#[trigger] rest[i]) + 2
            < indices.len() by {
            assert(rest[i] == tris[i]);
        }
        lemma_corner_is_vertex(indices, weld_of, rest, w);
    }
}

/// The vertex at `p`; a new one is made if none has its tag yet.
fn vertex_at(
    indices: &Vec<u32>,
    topo: &Topology,
    ring: &Vec<RingFace>,
    cuts: usize,
    points: &mut Vec<CutPoint>,
    tags: &mut Vec<CutTag>,
    p: CutPoint,
) -> (v: u32)
    requires
        valid(*topo, indices@),
        within(ring@, *topo),
        p.face < topo.faces@.len(),
        p.step <= cuts + 1,
        cuts < usize::MAX,
        face_corner(indices@, *topo, p.face as int, p.from) is Some,
        face_corner(indices@, *topo, p.face as int, p.to) is Some,
        topo.weld_of@.len() + old(points)@.len() < u32::MAX,
        old(tags)@ == tags_of(indices@, *topo, ring@, cuts, old(points)@),
    ensures
        final(tags)@ == tags_of(indices@, *topo, ring@, cuts, final(points)@),
        final(points)@ == if p.step == 0 || p.step == cuts + 1 || old(tags)@.contains(
            tag_of(indices@, *topo, ring@, cuts, p),
        ) {
            old(points)@
        } else {
            old(points)@.push(p)
        },
        is_vertex_at(
            indices@,
            *topo,
            ring@,
            cuts,
            topo.weld_of@.len(),
            final(points)@,
            p,
            v,
        ),
        v < topo.weld_of@.len() + final(points)@.len(),
{
    let end = if p.step == 0 {
        Some(p.from)
    } else if p.step == cuts + 1 {
        Some(p.to)
    } else {
        None
    };
    if let Some(w) = end {
        proof {
            let tris = topo.faces@[p.face as int].tris@;
            assert forall|i: int| 0 <= i < tris.len() implies 3 * (#[trigger] tris[i]) + 2
                < indices@.len() by {
                assert(topo.faces@[p.face as int].tris@[i] < topo.tris@.len());
            }
            lemma_corner_is_vertex(indices@, topo.weld_of@, tris, w);
        }
        return corner_of(indices, topo, p.face, w).unwrap();
    }
    let t = tag(indices, topo, ring, cuts, p);
    let base: usize = topo.weld_of.len();
    let mut i: usize = 0;
    while i < tags.len()
        invariant
            i <= tags@.len(),
            base == topo.weld_of@.len(),
            base + points@.len() < u32::MAX,
            *tags == *old(tags),
            *points == *old(points),
            tags@ == tags_of(indices@, *topo, ring@, cuts, points@),
            0 < p.step <= cuts,
            t == tag_of(indices@, *topo, ring@, cuts, p),
            forall|k: int| 0 <= k < i ==> tags@[k] != t,
        decreases tags@.len() - i,
    {
        if same_tag(&tags[i], &t) {
            assert(tags@[i as int] == t);
            assert(tags@.contains(t));
            return (base + i) as u32;
        }
        i += 1;
    }
    let v: u32 = (base + points.len()) as u32;
    points.push(p);
    tags.push(t);
    assert(tags@ =~= tags_of(indices@, *topo, ring@, cuts, points@));
    v
}

/// The face of each triangle.
fn triangle_faces(topo: &Topology) -> (r: Vec<Option<usize>>)
    requires
        forall|f: int, i: int|
            0 <= f < topo.faces@.len() && 0 <= i < topo.faces@[f].tris@.len()
                ==> #[trigger] topo.faces@[f].tris@[i] < topo.tris@.len(),
    ensures
        r@.len() == topo.tris@.len(),
        forall|t: usize|
            t < r@.len() ==> #[trigger] r@[t as int] == face_of_triangle(
                *topo,
                topo.faces@.len(),
                t,
            ),
{
    let mut r: Vec<Option<usize>> = Vec::new();
    while r.len() < topo.tris.len()
        invariant
            r@.len() <= topo.tris@.len(),
            forall|t: int| 0 <= t < r@.len() ==> r@[t] is None,
        decreases topo.tris@.len() - r@.len(),
    {
        r.push(None);
    }
    let mut f: usize = 0;
    while f < topo.faces.len()
        invariant
            f <= topo.faces@.len(),
            r@.len() == topo.tris@.len(),
            forall|f: int, i: int|
                0 <= f < topo.faces@.len() && 0 <= i < topo.faces@[f].tris@.len()
                    ==> #[trigger] topo.faces@[f].tris@[i] < topo.tris@.len(),
            forall|t: usize|
                t < r@.len() ==> #[trigger] r@[t as int] == face_of_triangle(*topo, f as nat, t),
        decreases topo.faces@.len() - f,
    {
        let tris = &topo.faces[f].tris;
        let ghost before = r@;
        let mut i: usize = 0;
        while i < tris.len()
            invariant
                i <= tris@.len(),
                f < topo.faces@.len(),
                *tris == topo.faces@[f as int].tris,
                r@.len() == topo.tris@.len(),
                before.len() == r@.len(),
                forall|f: int, i: int|
                    0 <= f < topo.faces@.len() && 0 <= i < topo.faces@[f].tris@.len()
                        ==> #[trigger] topo.faces@[f].tris@[i] < topo.tris@.len(),
                forall|t: usize|
                    t < r@.len() ==> #[trigger] r@[t as int] == if tris@.take(
                        i as int,
                    ).contains(t) {
                        Some(f)
                    } else {
                        before[t as int]
                    },
            decreases tris@.len() - i,
        {
            let t = tris[i];
            assert(topo.faces@[f as int].tris@[i as int] < topo.tris@.len());
            let ghost was = tris@.take(i as int);
            r.set(t, Some(f));
            i += 1;
            proof {
                let now = tris@.take(i as int);
                assert(now[i - 1] == t);
                assert forall|x: usize| x != t implies now.contains(x) == was.contains(x) by {
                    if now.contains(x) {
                        let k = choose|k: int| 0 <= k < now.len() && now[k] == x;
                        assert(was[k] == x);
                    }
                    if was.contains(x) {
                        let k = choose|k: int| 0 <= k < was.len() && was[k] == x;
                        assert(now[k] == x);
                    }
                }
                assert(now.contains(t));
            }
        }
        assert(tris@.take(i as int) =~= tris@);
        f += 1;
    }
    r
}

/// The triangles of faces that are not rebuilt.
pub(crate) fn keep_triangles(indices: &Vec<u32>, topo: &Topology, rebuilt: &Vec<usize>) -> (r: Vec<u32>)
    requires
        valid(*topo, indices@),
    ensures
        r@ == kept_triangles(indices@, *topo, rebuilt@, topo.tris@.len()),
        forall|i: int| 0 <= i < r@.len() ==> (#[trigger] r@[i]) < topo.weld_of@.len(),
{
    let face_of = triangle_faces(topo);
    let mut r: Vec<u32> = Vec::new();
    let total: usize = indices.len();
    let mut t: usize = 0;
    while t < face_of.len()
        invariant
            t <= face_of@.len(),
            total == indices@.len(),
            face_of@.len() == topo.tris@.len(),
            valid(*topo, indices@),
            forall|t: usize|
                t < face_of@.len() ==> #[trigger] face_of@[t as int] == face_of_triangle(
                    *topo,
                    topo.faces@.len(),
                    t,
                ),
            r@ == kept_triangles(indices@, *topo, rebuilt@, t as nat),
            forall|i: int| 0 <= i < r@.len() ==> (#[trigger] r@[i]) < topo.weld_of@.len(),
        decreases face_of@.len() - t,
    {
        let rebuild = match face_of[t] {
            Some(f) => contains(rebuilt, f),
            None => false,
        };
        assert(face_of@[t as int] == face_of_triangle(*topo, topo.faces@.len(), t));
        if !rebuild {
            let ghost before = r@;
            r.push(indices[3 * t]);
            r.push(indices[3 * t + 1]);
            r.push(indices[3 * t + 2]);
            assert(r@ =~= before + seq![
                indices@[3 * t],
                indices@[3 * t + 1],
                indices@[3 * t + 2],
            ]);
        }
        t += 1;
    }
    r
}

/// The loops of all faces, each turned round where `turned` says so.
pub open spec fn face_loops(topo: Topology, turned: Seq<bool>) -> Seq<Option<Seq<usize>>> {
    Seq::new(topo.faces@.len(), |f: int| face_loop_of(topo, f, turned[f]))
}

fn all_loops(topo: &Topology, turned: &Vec<bool>) -> (r: Vec<Option<Vec<usize>>>)
    requires
        turned@.len() == topo.faces@.len(),
    ensures
        loops_view(r@) == face_loops(*topo, turned@),
{
    let mut r: Vec<Option<Vec<usize>>> = Vec::new();
    let mut f: usize = 0;
    while f < topo.faces.len()
        invariant
            f <= topo.faces@.len(),
            turned@.len() == topo.faces@.len(),
            r@.len() == f,
            forall|k: int|
                0 <= k < f ==> #[trigger] loops_view(r@)[k] == face_loop_of(*topo, k, turned@[k]),
        decreases topo.faces@.len() - f,
    {
        let ghost before = r@;
        let l = face_loop(topo, f, turned[f]);
        r.push(l);
        assert forall|k: int| 0 <= k < f + 1 implies #[trigger] loops_view(r@)[k]
            == face_loop_of(*topo, k, turned@[k]) by {
            if k < f {
                assert(loops_view(before)[k] == loops_view(r@)[k]);
            }
        }
        f += 1;
    }
    assert(loops_view(r@) =~= face_loops(*topo, turned@));
    r
}

proof fn lemma_crossing_vertices(quad: Seq<usize>, u: usize, v: usize)
    requires
        crossing(quad, u, v) is Some,
    ensures
        quad.contains(u),
        quad.contains(v),
        quad.contains((crossing(quad, u, v)->0).0.0),
        quad.contains((crossing(quad, u, v)->0).0.1),
{
    reveal_with_fuel(cross_from, 5);
    assert(quad.contains(quad[0]) && quad.contains(quad[1]) && quad.contains(quad[2])
        && quad.contains(quad[3]));
}

proof fn lemma_loop_vertex_is_corner(
    indices: Seq<u32>,
    topo: Topology,
    f: int,
    turned: bool,
    w: usize,
)
    requires
        describes(topo, indices, topo.weld_of@.len()),
        0 <= f < topo.faces@.len(),
        face_loop_of(topo, f, turned) is Some,
        (face_loop_of(topo, f, turned)->0).contains(w),
    ensures
        face_corner(indices, topo, f, w) is Some,
{
    let outline = topo.faces@[f].outline@;
    let l = loop_of(outline)->0;
    let m = face_loop_of(topo, f, turned)->0;
    law_loop_is_simple_and_closed(outline);
    let k = choose|k: int| 0 <= k < m.len() && m[k] == w;
    let i = if turned { l.len() - 1 - k } else { k };
    assert(l[i] == w);
    let other = if i < l.len() - 1 { l[i + 1] } else { l[0] };
    assert(joined(outline, w, other));
    let e = choose|e: int| 0 <= e < outline.len() && (#[trigger] outline[e] == (w, other)
        || outline[e] == (other, w));
    assert(topo.faces@[f].outline@[e] == outline[e]);
}

/// The ends of the entry and exit edges of a ring are corners of its faces.
proof fn lemma_ring_corners(
    indices: Seq<u32>,
    topo: Topology,
    turned: Seq<bool>,
    start: (usize, usize),
    i: int,
)
    requires
        describes(topo, indices, topo.weld_of@.len()),
        turned.len() == topo.faces@.len(),
        0 <= i < ring_of(topo, face_loops(topo, turned), start).len(),
    ensures
        ({
            let r = ring_of(topo, face_loops(topo, turned), start)[i];
            &&& r.face < topo.faces@.len()
            &&& face_corner(indices, topo, r.face as int, r.entry.0) is Some
            &&& face_corner(indices, topo, r.face as int, r.entry.1) is Some
            &&& face_corner(indices, topo, r.face as int, r.exit.0) is Some
            &&& face_corner(indices, topo, r.face as int, r.exit.1) is Some
        }),
{
    let loops = face_loops(topo, turned);
    law_ring_crosses_distinct_quads(topo, loops, start);
    let r = ring_of(topo, loops, start)[i];
    assert(crossing_of(loops, r.face, r.entry) is Some);
    let f = r.face as int;
    let t = turned[f];
    let quad = loops[f]->0;
    lemma_crossing_vertices(quad, r.entry.0, r.entry.1);
    lemma_loop_vertex_is_corner(indices, topo, f, t, r.entry.0);
    lemma_loop_vertex_is_corner(indices, topo, f, t, r.entry.1);
    lemma_loop_vertex_is_corner(indices, topo, f, t, r.exit.0);
    lemma_loop_vertex_is_corner(indices, topo, f, t, r.exit.1);
}

/// Corners stay corners when new vertices are added behind the others.
proof fn lemma_corners_extend(
    indices: Seq<u32>,
    topo: Topology,
    ring: Seq<RingFace>,
    cuts: usize,
    base: nat,
    points: Seq<CutPoint>,
    more: Seq<CutPoint>,
    strips: Seq<Strip>,
    corners: Seq<StripCorners>,
)
    requires
        are_corners(indices, topo, ring, cuts, base, points, strips, corners),
        points.is_prefix_of(more),
    ensures
        are_corners(indices, topo, ring, cuts, base, more, strips, corners),
{
}

proof fn lemma_new_points_of_four(
    indices: Seq<u32>,
    topo: Topology,
    ring: Seq<RingFace>,
    cuts: usize,
    before: Seq<CutPoint>,
    four: Seq<CutPoint>,
)
    requires
        four.len() == 4,
    ensures
        ({
            let n0 = new_points(indices, topo, ring, cuts, before);
            let n1 = new_points(indices, topo, ring, cuts, before.push(four[0]));
            let n2 = new_points(indices, topo, ring, cuts, before.push(four[0]).push(four[1]));
            let n3 = new_points(
                indices,
                topo,
                ring,
                cuts,
                before.push(four[0]).push(four[1]).push(four[2]),
            );
            let n4 = new_points(indices, topo, ring, cuts, before + four);
            &&& n1 == added(indices, topo, ring, cuts, n0, four[0])
            &&& n2 == added(indices, topo, ring, cuts, n1, four[1])
            &&& n3 == added(indices, topo, ring, cuts, n2, four[2])
            &&& n4 == added(indices, topo, ring, cuts, n3, four[3])
        }),
{
    let b1 = before.push(four[0]);
    let b2 = b1.push(four[1]);
    let b3 = b2.push(four[2]);
    assert(b1.drop_last() =~= before);
    assert(b2.drop_last() =~= b1);
    assert(b3.drop_last() =~= b2);
    assert((before + four).drop_last() =~= b3);
    assert((before + four).last() == four[3]);
}

/// The new vertices after one more point.
pub open spec fn added(
    indices: Seq<u32>,
    topo: Topology,
    ring: Seq<RingFace>,
    cuts: usize,
    points: Seq<CutPoint>,
    p: CutPoint,
) -> Seq<CutPoint> {
    if p.step == 0 || p.step == cuts + 1 || tags_of(indices, topo, ring, cuts, points).contains(
        tag_of(indices, topo, ring, cuts, p),
    ) {
        points
    } else {
        points.push(p)
    }
}

/// The vertices at the corners of a strip, made where they are missing.
fn corners_of_strip(
    indices: &Vec<u32>,
    topo: &Topology,
    ring: &Vec<RingFace>,
    cuts: usize,
    points: &mut Vec<CutPoint>,
    tags: &mut Vec<CutTag>,
    r: RingFace,
    step: usize,
    Ghost(done): Ghost<Seq<Strip>>,
) -> (c: StripCorners)
    requires
        valid(*topo, indices@),
        within(ring@, *topo),
        r.face < topo.faces@.len(),
        step <= cuts,
        cuts < usize::MAX,
        face_corner(indices@, *topo, r.face as int, r.entry.0) is Some,
        face_corner(indices@, *topo, r.face as int, r.entry.1) is Some,
        face_corner(indices@, *topo, r.face as int, r.exit.0) is Some,
        face_corner(indices@, *topo, r.face as int, r.exit.1) is Some,
        topo.weld_of@.len() + old(points)@.len() + 4 < u32::MAX,
        old(tags)@ == tags_of(indices@, *topo, ring@, cuts, old(points)@),
        old(points)@ == new_points(indices@, *topo, ring@, cuts, strip_points(done)),
    ensures
        final(tags)@ == tags_of(indices@, *topo, ring@, cuts, final(points)@),
        final(points)@ == new_points(
            indices@,
            *topo,
            ring@,
            cuts,
            strip_points(done.push(Strip { ring_face: r, step })),
        ),
        old(points)@.is_prefix_of(final(points)@),
        final(points)@.len() <= old(points)@.len() + 4,
        ({
            let base = topo.weld_of@.len();
            let p = (Strip { ring_face: r, step }).points();
            let all = final(points)@;
            &&& is_vertex_at(indices@, *topo, ring@, cuts, base, all, p[0], c.a0)
            &&& is_vertex_at(indices@, *topo, ring@, cuts, base, all, p[1], c.a1)
            &&& is_vertex_at(indices@, *topo, ring@, cuts, base, all, p[2], c.b0)
            &&& is_vertex_at(indices@, *topo, ring@, cuts, base, all, p[3], c.b1)
            &&& c.a0 < base + all.len()
            &&& c.a1 < base + all.len()
            &&& c.b0 < base + all.len()
            &&& c.b1 < base + all.len()
        }),
{
    let p0 = CutPoint { face: r.face, from: r.entry.0, to: r.entry.1, step };
    let p1 = CutPoint { face: r.face, from: r.entry.0, to: r.entry.1, step: step + 1 };
    let p2 = CutPoint { face: r.face, from: r.exit.0, to: r.exit.1, step };
    let p3 = CutPoint { face: r.face, from: r.exit.0, to: r.exit.1, step: step + 1 };
    let a0 = vertex_at(indices, topo, ring, cuts, points, tags, p0);
    let a1 = vertex_at(indices, topo, ring, cuts, points, tags, p1);
    let b0 = vertex_at(indices, topo, ring, cuts, points, tags, p2);
    let b1 = vertex_at(indices, topo, ring, cuts, points, tags, p3);
    proof {
        let strip = Strip { ring_face: r, step };
        let four = strip.points();
        assert(four =~= seq![p0, p1, p2, p3]);
        assert(done.push(strip).drop_last() =~= done);
        lemma_new_points_of_four(indices@, *topo, ring@, cuts, strip_points(done), four);
    }
    StripCorners { a0, a1, b0, b1 }
}

/// Appends the triangles of a strip, and its near side as a seam unless it
/// is the first of its quad.
fn emit_strip(
    out: &mut Vec<u32>,
    seams: &mut Vec<(u32, u32)>,
    aligned: bool,
    step: usize,
    c: StripCorners,
)
    ensures
        final(out)@ == old(out)@ + strip_triangles(aligned, c.a0, c.a1, c.b0, c.b1),
        final(seams)@ == if step > 0 {
            old(seams)@.push((c.a0, c.b0))
        } else {
            old(seams)@
        },
{
    out.push(c.a0);
    if aligned {
        out.push(c.a1);
        out.push(c.b1);
        out.push(c.a0);
        out.push(c.b1);
        out.push(c.b0);
    } else {
        out.push(c.b1);
        out.push(c.a1);
        out.push(c.a0);
        out.push(c.b0);
        out.push(c.b1);
    }
    if step > 0 {
        seams.push((c.a0, c.b0));
    }
    assert(out@ =~= old(out)@ + strip_triangles(aligned, c.a0, c.a1, c.b0, c.b1));
}

/// The ring cut into strips, before unused vertices are dropped.
fn cut_ring<P>(
    mesh: &MeshData<P>,
    topo: &Topology,
    turned: &Vec<bool>,
    start: (usize, usize),
    ring: &Vec<RingFace>,
    cuts: usize,
) -> (r: (MeshData<VertexSource>, Ghost<Seq<StripCorners>>))
    requires
        mesh.wf(),
        describes(*topo, mesh.indices@, mesh.positions@.len()),
        turned@.len() == topo.faces@.len(),
        ring@ == ring_of(*topo, face_loops(*topo, turned@), start),
        mesh.positions@.len() + 4 * (topo.faces@.len() * (cuts + 1)) < u32::MAX,
        cuts < usize::MAX,
    ensures
        r.0.wf(),
        is_cut(
            mesh.indices@,
            mesh.positions@.len(),
            mesh.seams@,
            *topo,
            ring@,
            cuts,
            r.1@,
            r.0,
        ),
{
    let indices = &mesh.indices;
    let ghost base = topo.weld_of@.len();
    let ghost loops = face_loops(*topo, turned@);
    proof {
        law_ring_crosses_distinct_quads(*topo, loops, start);
        assert forall|i: int| 0 <= i < ring@.len() implies (#[trigger] ring@[i]).face
            < topo.faces@.len() by {
            lemma_ring_corners(indices@, *topo, turned@, start, i);
        }
        let rf = ring_faces(ring@);
        assert forall|i: int| 0 <= i < rf.len() implies (#[trigger] rf[i]) < topo.faces@.len() by {
            assert(ring@[i].face < topo.faces@.len());
        }
        lemma_distinct_indices(rf, topo.faces@.len());
    }
    let mut rebuilt: Vec<usize> = Vec::new();
    let mut q: usize = 0;
    while q < ring.len()
        invariant
            q <= ring@.len(),
            rebuilt@ == ring_faces(ring@.take(q as int)),
        decreases ring@.len() - q,
    {
        rebuilt.push(ring[q].face);
        q += 1;
        assert(rebuilt@ =~= ring_faces(ring@.take(q as int)));
    }
    assert(ring@.take(q as int) =~= ring@);
    let mut out: Vec<u32> = keep_triangles(indices, topo, &rebuilt);
    let ghost kept = out@;
    let mut seams: Vec<(u32, u32)> = Vec::new();
    let mut s: usize = 0;
    while s < mesh.seams.len()
        invariant
            s <= mesh.seams@.len(),
            mesh.wf(),
            base == mesh.positions@.len(),
            seams@ == mesh.seams@.take(s as int),
            forall|k: int|
                0 <= k < seams@.len() ==> (#[trigger] seams@[k]).0 < base && seams@[k].1 < base,
        decreases mesh.seams@.len() - s,
    {
        seams.push(mesh.seams[s]);
        assert(mesh.seams@[s as int].0 < mesh.positions@.len());
        s += 1;
        assert(seams@ =~= mesh.seams@.take(s as int));
    }
    assert(seams@ =~= mesh.seams@);

    let mut points: Vec<CutPoint> = Vec::new();
    let mut tags: Vec<CutTag> = Vec::new();
    assert(tags@ =~= tags_of(indices@, *topo, ring@, cuts, points@));
    let ghost mut done: Seq<Strip> = seq![];
    let ghost mut corners: Seq<StripCorners> = seq![];
    assert(out@ =~= kept + triangles_of(done, corners));
    assert(seams@ =~= mesh.seams@ + seams_of(done, corners));
    let mut i: usize = 0;
    while i < ring.len()
        invariant
            i <= ring@.len() <= topo.faces@.len(),
            *indices == mesh.indices,
            mesh.wf(),
            base == topo.weld_of@.len(),
            base == mesh.positions@.len(),
            valid(*topo, indices@),
            within(ring@, *topo),
            turned@.len() == topo.faces@.len(),
            ring@ == ring_of(*topo, face_loops(*topo, turned@), start),
            base + 4 * (topo.faces@.len() * (cuts + 1)) < u32::MAX,
            cuts < usize::MAX,
            done == strips_of(ring@.take(i as int), cuts),
            done.len() == i * (cuts + 1),
            points@ == new_points(indices@, *topo, ring@, cuts, strip_points(done)),
            points@.len() <= 4 * done.len(),
            tags@ == tags_of(indices@, *topo, ring@, cuts, points@),
            are_corners(indices@, *topo, ring@, cuts, base, points@, done, corners),
            out@ == kept + triangles_of(done, corners),
            seams@ == mesh.seams@ + seams_of(done, corners),
            forall|k: int| 0 <= k < out@.len() ==> (#[trigger] out@[k]) < base + points@.len(),
            forall|k: int|
                0 <= k < seams@.len() ==> (#[trigger] seams@[k]).0 < base + points@.len()
                    && seams@[k].1 < base + points@.len(),
        decreases ring@.len() - i,
    {
        let r = ring[i];
        proof {
            lemma_ring_corners(indices@, *topo, turned@, start, i as int);
        }
        let ghost whole = done;
        let mut j: usize = 0;
        assert(whole + quad_strips(r, 0) =~= whole);
        while j <= cuts
            invariant
                i < ring@.len() <= topo.faces@.len(),
                r == ring@[i as int],
                j <= cuts + 1,
                *indices == mesh.indices,
                mesh.wf(),
                base == topo.weld_of@.len(),
                base == mesh.positions@.len(),
                valid(*topo, indices@),
                within(ring@, *topo),
                r.face < topo.faces@.len(),
                face_corner(indices@, *topo, r.face as int, r.entry.0) is Some,
                face_corner(indices@, *topo, r.face as int, r.entry.1) is Some,
                face_corner(indices@, *topo, r.face as int, r.exit.0) is Some,
                face_corner(indices@, *topo, r.face as int, r.exit.1) is Some,
                base + 4 * (topo.faces@.len() * (cuts + 1)) < u32::MAX,
                cuts < usize::MAX,
                whole.len() == i * (cuts + 1),
                done == whole + quad_strips(r, j as int),
                points@ == new_points(indices@, *topo, ring@, cuts, strip_points(done)),
                points@.len() <= 4 * done.len(),
                tags@ == tags_of(indices@, *topo, ring@, cuts, points@),
                are_corners(indices@, *topo, ring@, cuts, base, points@, done, corners),
                out@ == kept + triangles_of(done, corners),
                seams@ == mesh.seams@ + seams_of(done, corners),
                forall|k: int| 0 <= k < out@.len() ==> (#[trigger] out@[k]) < base + points@.len(),
                forall|k: int|
                    0 <= k < seams@.len() ==> (#[trigger] seams@[k]).0 < base + points@.len()
                        && seams@[k].1 < base + points@.len(),
            decreases cuts + 1 - j,
        {
            proof {
                let n = topo.faces@.len();
                assert(i * (cuts + 1) + (cuts + 1) == (i + 1) * (cuts + 1)) by (nonlinear_arith);
                assert((i + 1) * (cuts + 1) <= n * (cuts + 1)) by (nonlinear_arith)
                    requires
                        i + 1 <= n,
                ;
                assert(4 * done.len() + 4 <= 4 * (n * (cuts + 1)));
            }
            let strip = Strip { ring_face: r, step: j };
            let ghost n0 = points@;
            let ghost old_done = done;
            let ghost old_corners = corners;
            let ghost old_out = out@;
            let ghost old_seams = seams@;
            let c = corners_of_strip(
                indices,
                topo,
                ring,
                cuts,
                &mut points,
                &mut tags,
                r,
                j,
                Ghost(done),
            );
            emit_strip(&mut out, &mut seams, r.aligned, j, c);
            proof {
                done = old_done.push(strip);
                corners = old_corners.push(c);
                assert(done.drop_last() =~= old_done);
                assert(corners.drop_last() =~= old_corners);
                assert(done =~= whole + quad_strips(r, j + 1));
                lemma_corners_extend(
                    indices@,
                    *topo,
                    ring@,
                    cuts,
                    base,
                    n0,
                    points@,
                    old_done,
                    old_corners,
                );
                assert(are_corners(
                    indices@,
                    *topo,
                    ring@,
                    cuts,
                    base,
                    points@,
                    done,
                    corners,
                )) by {
                    assert forall|k: int| #![trigger corners[k]] 0 <= k < done.len() implies {
                        let p = done[k].points();
                        &&& is_vertex_at(
                            indices@,
                            *topo,
                            ring@,
                            cuts,
                            base,
                            points@,
                            p[0],
                            corners[k].a0,
                        )
                        &&& is_vertex_at(
                            indices@,
                            *topo,
                            ring@,
                            cuts,
                            base,
                            points@,
                            p[1],
                            corners[k].a1,
                        )
                        &&& is_vertex_at(
                            indices@,
                            *topo,
                            ring@,
                            cuts,
                            base,
                            points@,
                            p[2],
                            corners[k].b0,
                        )
                        &&& is_vertex_at(
                            indices@,
                            *topo,
                            ring@,
                            cuts,
                            base,
                            points@,
                            p[3],
                            corners[k].b1,
                        )
                    } by {
                        if k < old_done.len() {
                            assert(corners[k] == old_corners[k]);
                            assert(done[k] == old_done[k]);
                        } else {
                            assert(done[k] == strip);
                            assert(corners[k] == c);
                        }
                    }
                }
                assert(out@ =~= kept + triangles_of(done, corners));
                assert(seams@ =~= mesh.seams@ + seams_of(done, corners));
            }
            j += 1;
        }
        i += 1;
        proof {
            let upto = ring@.take(i as int);
            assert(upto.drop_last() =~= ring@.take(i - 1));
            assert(upto.last() == r);
            assert(i * (cuts + 1) == (i - 1) * (cuts + 1) + (cuts + 1)) by (nonlinear_arith);
        }
    }
    assert(ring@.take(i as int) =~= ring@);
    let mut positions: Vec<VertexSource> = Vec::new();
    let vertices: usize = mesh.positions.len();
    while positions.len() < vertices
        invariant
            positions@.len() <= vertices < u32::MAX,
            positions@ == Seq::new(positions@.len(), |k: int| VertexSource::Mesh(k as u32)),
        decreases vertices - positions@.len(),
    {
        positions.push(VertexSource::Mesh(positions.len() as u32));
        assert(positions@ =~= Seq::new(positions@.len(), |k: int| VertexSource::Mesh(k as u32)));
    }
    let ghost old_part = positions@;
    let mut k: usize = 0;
    assert(old_part =~= old_part + Seq::new(
        0,
        |m: int|
            VertexSource::Between {
                from: points@[m].from,
                to: points@[m].to,
                step: points@[m].step,
                of: (cuts + 1) as usize,
            },
    ));
    while k < points.len()
        invariant
            k <= points@.len(),
            cuts < usize::MAX,
            positions@ == old_part + Seq::new(
                k as nat,
                |m: int|
                    VertexSource::Between {
                        from: points@[m].from,
                        to: points@[m].to,
                        step: points@[m].step,
                        of: (cuts + 1) as usize,
                    },
            ),
        decreases points@.len() - k,
    {
        let p = points[k];
        positions.push(
            VertexSource::Between { from: p.from, to: p.to, step: p.step, of: cuts + 1 },
        );
        k += 1;
        assert(positions@ =~= old_part + Seq::new(
            k as nat,
            |m: int|
                VertexSource::Between {
                    from: points@[m].from,
                    to: points@[m].to,
                    step: points@[m].step,
                    of: (cuts + 1) as usize,
                },
        ));
    }
    let full = MeshData { positions, indices: out, seams };
    proof {
        let n = topo.faces@.len();
        assert(i * (cuts + 1) <= n * (cuts + 1)) by (nonlinear_arith)
            requires
                i <= n,
        ;
        assert(full.positions@.len() == base + points@.len());
    }
    (full, Ghost(corners))
}

/// Inserts `cuts` evenly spaced edge loops perpendicular to `edge`,
/// splitting every quad of its edge ring into strips. Faces outside the ring
/// keep their exact triangles and vertex sharing. `turned` says of each face
/// whether its loop in outline order turns against the face normal. `None`
/// when no cut is asked for, or the edge borders no quad.
pub fn loop_cut<P>(
    mesh: &MeshData<P>,
    topo: &Topology,
    turned: &Vec<bool>,
    edge: (usize, usize),
    cuts: usize,
) -> (r: Option<MeshData<VertexSource>>)
    requires
        mesh.wf(),
        describes(*topo, mesh.indices@, mesh.positions@.len()),
        turned@.len() == topo.faces@.len(),
        mesh.positions@.len() + 4 * (topo.faces@.len() * (cuts + 1)) < u32::MAX,
    ensures
        r is Some <==> cuts > 0 && ring_of(
            *topo,
            face_loops(*topo, turned@),
            edge_key(edge.0, edge.1),
        ).len() > 0,
        r matches Some(m) ==> exists|full: MeshData<VertexSource>, corners: Seq<StripCorners>| {
            &&& #[trigger] is_cut(
                mesh.indices@,
                mesh.positions@.len(),
                mesh.seams@,
                *topo,
                ring_of(*topo, face_loops(*topo, turned@), edge_key(edge.0, edge.1)),
                cuts,
                corners,
                full,
            )
            &&& full.wf()
            &&& is_compacted(full, m)
        },
{
    if cuts == 0 {
        return None;
    }
    let loops = all_loops(topo, turned);
    let start = ekey(edge.0, edge.1);
    let ring = walk_ring(topo, &loops, start);
    if ring.len() == 0 {
        return None;
    }
    proof {
        let n = topo.faces@.len();
        lemma_ring_corners(mesh.indices@, *topo, turned@, start, 0);
        assert(cuts + 1 <= n * (cuts + 1)) by (nonlinear_arith)
            requires
                n >= 1,
        ;
    }
    let (full, Ghost(corners)) = cut_ring(mesh, topo, turned, start, &ring, cuts);
    let mut cut = full;
    let ghost whole = cut;
    compact(&mut cut);
    assert(is_cut(
        mesh.indices@,
        mesh.positions@.len(),
        mesh.seams@,
        *topo,
        ring@,
        cuts,
        corners,
        whole,
    ));
    Some(cut)
}

/// A corner of triangle `t` is the mesh vertex `v`.
pub open spec fn has_vertex(indices: Seq<u32>, t: int, v: u32) -> bool {
    indices[3 * t] == v || indices[3 * t + 1] == v || indices[3 * t + 2] == v
}

/// The corner of a face at a welded vertex is a mesh vertex of one of the
/// face's own triangles, and it is welded to that vertex. There is none only
/// where no triangle of the face touches the vertex.
pub proof fn law_corners_are_welded_vertices(
    indices: Seq<u32>,
    weld_of: Seq<usize>,
    tris: Seq<usize>,
    w: usize,
)
    ensures
        corner(indices, weld_of, tris, w) matches Some(v) ==> {
            &&& weld_of[v as int] == w
            &&& exists|i: int| 0 <= i < tris.len() && has_vertex(indices, #[trigger] tris[i] as int, v)
        },
        corner(indices, weld_of, tris, w) is None ==> forall|i: int, v: u32|
            0 <= i < tris.len() && #[trigger] has_vertex(indices, tris[i] as int, v) ==> weld_of[v as int]
                != w,
    decreases tris.len(),
{
    if tris.len() > 0 {
        let rest = tris.drop_last();
        law_corners_are_welded_vertices(indices, weld_of, rest, w);
        let last = tris[tris.len() - 1];
        assert(tris.last() == last);
        if let Some(v) = corner(indices, weld_of, tris, w) {
            if tri_corner(indices, weld_of, last as int, w) is Some {
                assert(has_vertex(indices, tris[tris.len() - 1] as int, v));
            } else {
                let i = choose|i: int|
                    0 <= i < rest.len() && has_vertex(indices, #[trigger] rest[i] as int, v);
                assert(has_vertex(indices, tris[i] as int, v));
            }
        } else {
            assert forall|i: int, v: u32|
                0 <= i < tris.len() && #[trigger] has_vertex(
                    indices,
                    tris[i] as int,
                    v,
                ) implies weld_of[v as int] != w by {
                if i < rest.len() {
                    assert(has_vertex(indices, rest[i] as int, v));
                }
            }
        }
    }
}

/// Every vertex of the cut lies where its point is. At the ends of an edge it
/// is a vertex of the mesh that is welded to that end. Between them it is a
/// new one, as many steps along the same edge: counted from the other end
/// where the edge is named the other way round. Only across a smooth edge
/// does it belong to another face.
pub proof fn law_cut_vertices_lie_on_their_edge(
    indices: Seq<u32>,
    topo: Topology,
    ring: Seq<RingFace>,
    cuts: usize,
    base: nat,
    points: Seq<CutPoint>,
    p: CutPoint,
    v: u32,
)
    requires
        cuts < usize::MAX,
        p.step <= cuts + 1,
        p.from != p.to,
        forall|i: int| 0 <= i < points.len() ==> (#[trigger] points[i]).step <= cuts + 1,
        is_vertex_at(indices, topo, ring, cuts, base, points, p, v),
    ensures
        p.step == 0 ==> topo.weld_of@[v as int] == p.from,
        p.step == cuts + 1 ==> topo.weld_of@[v as int] == p.to,
        0 < p.step <= cuts ==> {
            let q = points[v - base];
            &&& base <= v < base + points.len()
            &&& (q.from == p.from && q.to == p.to && q.step == p.step) || (q.from == p.to && q.to
                == p.from && q.step + p.step == cuts + 1)
            &&& q.face == p.face || is_smooth(indices, topo, ring, edge_key(p.from, p.to))
        },
{
    law_corners_are_welded_vertices(
        indices,
        topo.weld_of@,
        topo.faces@[p.face as int].tris@,
        p.from,
    );
    law_corners_are_welded_vertices(
        indices,
        topo.weld_of@,
        topo.faces@[p.face as int].tris@,
        p.to,
    );
    if 0 < p.step <= cuts {
        let q = points[v - base];
        assert(q.step <= cuts + 1);
        assert(edge_key(p.from, p.to) == edge_key(q.from, q.to));
    }
}

/// The ring crosses the edge `key` in its part `r`.
pub open spec fn crosses(r: RingFace, key: (usize, usize)) -> bool {
    edge_key(r.entry.0, r.entry.1) == key || edge_key(r.exit.0, r.exit.1) == key
}

/// The faces cut over an edge are those of the ring parts that cross it.
pub proof fn law_cut_faces_cross_the_edge(ring: Seq<RingFace>, key: (usize, usize), f: usize)
    ensures
        cut_faces(ring, key).contains(f) <==> exists|i: int|
            0 <= i < ring.len() && crosses(#[trigger] ring[i], key) && ring[i].face == f,
    decreases ring.len(),
{
    if ring.len() > 0 {
        let rest = ring.drop_last();
        law_cut_faces_cross_the_edge(rest, key, f);
        let before = cut_faces(rest, key);
        let now = cut_faces(ring, key);
        let r = ring[ring.len() - 1];
        assert(ring.last() == r);
        if before.contains(f) {
            let k = choose|k: int| 0 <= k < before.len() && before[k] == f;
            assert(now[k] == f);
            let i = choose|i: int|
                0 <= i < rest.len() && crosses(#[trigger] rest[i], key) && rest[i].face == f;
            assert(crosses(ring[i], key));
        }
        if crosses(r, key) && r.face == f {
            assert(now[before.len() as int] == f);
        }
        if exists|i: int| 0 <= i < ring.len() && crosses(#[trigger] ring[i], key) && ring[i].face == f {
            let i = choose|i: int|
                0 <= i < ring.len() && crosses(#[trigger] ring[i], key) && ring[i].face == f;
            if i < rest.len() {
                assert(crosses(rest[i], key));
            }
        }
    }
}

/// A hard edge stays hard: where two faces of the ring have different mesh
/// vertices at an end of the edge between them, each gets its own vertices
/// along it.
pub proof fn law_hard_edges_stay_hard(
    indices: Seq<u32>,
    topo: Topology,
    ring: Seq<RingFace>,
    cuts: usize,
    i: int,
    j: int,
    p: CutPoint,
    q: CutPoint,
    w: usize,
)
    requires
        0 <= i < ring.len(),
        0 <= j < ring.len(),
        crosses(ring[i], edge_key(p.from, p.to)),
        crosses(ring[j], edge_key(p.from, p.to)),
        p.face == ring[i].face,
        q.face == ring[j].face,
        p.face != q.face,
        w == p.from || w == p.to,
        face_corner(indices, topo, p.face as int, w) != face_corner(indices, topo, q.face as int, w),
    ensures
        tag_of(indices, topo, ring, cuts, p) != tag_of(indices, topo, ring, cuts, q),
{
    let key = edge_key(p.from, p.to);
    law_cut_faces_cross_the_edge(ring, key, p.face);
    law_cut_faces_cross_the_edge(ring, key, q.face);
    let fs = cut_faces(ring, key);
    let a = choose|a: int| 0 <= a < fs.len() && fs[a] == p.face;
    let b = choose|b: int| 0 <= b < fs.len() && fs[b] == q.face;
    assert(fs.contains(p.face) && fs.contains(q.face));
    if fs.len() == 2 {
        assert((a == 0 && b == 1) || (a == 1 && b == 0));
    }
    assert(!is_smooth(indices, topo, ring, key));
}

/// A smooth edge stays smooth: where the two faces that the ring has at it
/// use the same mesh vertices at both ends, they share those along it, from
/// whichever end each counts.
pub proof fn law_smooth_edges_stay_smooth(
    indices: Seq<u32>,
    topo: Topology,
    ring: Seq<RingFace>,
    cuts: usize,
    f: usize,
    g: usize,
    p: CutPoint,
    q: CutPoint,
)
    requires
        cuts < usize::MAX,
        cut_faces(ring, edge_key(p.from, p.to)) == seq![f, g],
        face_corner(indices, topo, f as int, p.from) is Some,
        face_corner(indices, topo, f as int, p.from) == face_corner(indices, topo, g as int, p.from),
        face_corner(indices, topo, f as int, p.to) is Some,
        face_corner(indices, topo, f as int, p.to) == face_corner(indices, topo, g as int, p.to),
        p.step <= cuts + 1,
        (q.from == p.from && q.to == p.to && q.step == p.step) || (p.from != p.to && q.from == p.to
            && q.to == p.from && q.step + p.step == cuts + 1),
    ensures
        tag_of(indices, topo, ring, cuts, p) == tag_of(indices, topo, ring, cuts, q),
{
}

/// No place on an edge gets two new vertices of the same face, every place
/// between the ends gets one, and the ends get none.
pub proof fn law_each_place_gets_one_vertex(
    indices: Seq<u32>,
    topo: Topology,
    ring: Seq<RingFace>,
    cuts: usize,
    points: Seq<CutPoint>,
)
    ensures
        ({
            let new = new_points(indices, topo, ring, cuts, points);
            let tags = tags_of(indices, topo, ring, cuts, new);
            &&& tags.no_duplicates()
            &&& forall|i: int| 0 <= i < new.len() ==> points.contains(#[trigger] new[i])
            &&& forall|i: int|
                0 <= i < new.len() ==> 0 < (#[trigger] new[i]).step && new[i].step != cuts + 1
            &&& forall|i: int|
                0 <= i < points.len() && 0 < (#[trigger] points[i]).step && points[i].step != cuts
                    + 1 ==> tags.contains(tag_of(indices, topo, ring, cuts, points[i]))
        }),
    decreases points.len(),
{
    let new = new_points(indices, topo, ring, cuts, points);
    let tags = tags_of(indices, topo, ring, cuts, new);
    if points.len() > 0 {
        let rest = points.drop_last();
        law_each_place_gets_one_vertex(indices, topo, ring, cuts, rest);
        let before = new_points(indices, topo, ring, cuts, rest);
        let had = tags_of(indices, topo, ring, cuts, before);
        let p = points.last();
        assert forall|i: int| 0 <= i < new.len() implies points.contains(#[trigger] new[i]) by {
            if i < before.len() {
                assert(rest.contains(before[i]));
                let k = choose|k: int| 0 <= k < rest.len() && rest[k] == before[i];
                assert(points[k] == new[i]);
            } else {
                assert(points[points.len() - 1] == new[i]);
            }
        }
        assert forall|i: int| 0 <= i < had.len() implies #[trigger] had[i] == tags[i] by {}
        assert forall|i: int|
            0 <= i < points.len() && 0 < (#[trigger] points[i]).step && points[i].step != cuts
                + 1 implies tags.contains(tag_of(indices, topo, ring, cuts, points[i])) by {
            let t = tag_of(indices, topo, ring, cuts, points[i]);
            if i < rest.len() {
                assert(rest[i] == points[i]);
                assert(had.contains(t));
            }
            if had.contains(t) {
                let k = choose|k: int| 0 <= k < had.len() && had[k] == t;
                assert(tags[k] == t);
            } else {
                assert(tags[before.len() as int] == t);
            }
        }
        assert forall|i: int, j: int| 0 <= i < j < tags.len() implies tags[i] != tags[j] by {
            if j < had.len() {
                assert(had[i] != had[j]);
            } else {
                assert(had[i] == tags[i]);
                assert(had.contains(tags[i]));
            }
        }
    } else {
        assert(tags =~= Seq::empty());
    }
}

/// The strips of a quad lie side by side from one end of its edges to the
/// other: the first begins and the last ends at the ends of the entry and
/// exit edge, and where one ends the next begins.
pub proof fn law_strips_lie_side_by_side(r: RingFace, cuts: usize, j: int)
    requires
        cuts < usize::MAX,
        0 <= j <= cuts,
    ensures
        quad_strips(r, cuts + 1).len() == cuts + 1,
        ({
            let p = quad_strips(r, cuts + 1)[j].points();
            &&& p.len() == 4
            &&& forall|k: int| 0 <= k < 4 ==> (#[trigger] p[k]).face == r.face
            &&& (p[0].from, p[0].to) == r.entry && (p[1].from, p[1].to) == r.entry
            &&& (p[2].from, p[2].to) == r.exit && (p[3].from, p[3].to) == r.exit
            &&& p[0].step == p[2].step && p[1].step == p[3].step
            &&& j == 0 ==> p[0].step == 0
            &&& j == cuts ==> p[1].step == cuts + 1
            &&& j < cuts ==> quad_strips(r, cuts + 1)[j + 1].points()[0] == p[1]
                && quad_strips(r, cuts + 1)[j + 1].points()[2] == p[3]
        }),
{
}

/// Every quad of the ring is cut into one strip more than there are cuts.
pub proof fn law_every_quad_is_cut(ring: Seq<RingFace>, cuts: usize, i: int, j: int)
    requires
        0 <= i < ring.len(),
        0 <= j <= cuts,
    ensures
        strips_of(ring, cuts).len() == ring.len() * (cuts + 1),
        0 <= i * (cuts + 1) + j < strips_of(ring, cuts).len(),
        strips_of(ring, cuts)[i * (cuts + 1) + j] == (Strip { ring_face: ring[i], step: j as usize }),
    decreases ring.len(),
{
    let rest = ring.drop_last();
    let n = ring.len() - 1;
    let per = cuts + 1;
    assert((n + 1) * per == n * per + per) by (nonlinear_arith);
    if i < n {
        law_every_quad_is_cut(rest, cuts, i, j);
        assert(rest[i] == ring[i]);
        assert(strips_of(rest, cuts).len() == n * per);
        assert(strips_of(ring, cuts)[i * per + j] == strips_of(rest, cuts)[i * per + j]);
    } else if n > 0 {
        law_every_quad_is_cut(rest, cuts, 0, 0);
        assert(strips_of(rest, cuts).len() == n * per);
    } else {
        assert(strips_of(rest, cuts).len() == 0);
        assert(n * per == 0) by (nonlinear_arith)
            requires
                n == 0,
        ;
    }
}

/// One of the two triangles runs from `p` straight to `q`.
pub open spec fn triangles_run(six: Seq<u32>, p: u32, q: u32) -> bool {
    ||| six[0] == p && six[1] == q
    ||| six[1] == p && six[2] == q
    ||| six[2] == p && six[0] == q
    ||| six[3] == p && six[4] == q
    ||| six[4] == p && six[5] == q
    ||| six[5] == p && six[3] == q
}

/// A strip keeps the winding of its quad. Its two triangles run round it:
/// along the entry edge in the direction of the cut where the quad is aligned
/// with it, against it otherwise.
pub proof fn law_strips_are_wound_as_the_quad(a0: u32, a1: u32, b0: u32, b1: u32)
    ensures
        ({
            let six = strip_triangles(true, a0, a1, b0, b1);
            &&& six.len() == 6
            &&& triangles_run(six, a0, a1)
            &&& triangles_run(six, a1, b1)
            &&& triangles_run(six, b1, b0)
            &&& triangles_run(six, b0, a0)
        }),
        ({
            let six = strip_triangles(false, a0, a1, b0, b1);
            &&& six.len() == 6
            &&& triangles_run(six, a1, a0)
            &&& triangles_run(six, b1, a1)
            &&& triangles_run(six, b0, b1)
            &&& triangles_run(six, a0, b0)
        }),
{
}

/// Every strip gets its two triangles, wound as its own quad is, and every
/// strip but the first of a quad a seam across it, where the cut runs.
pub proof fn law_every_strip_is_filled(strips: Seq<Strip>, corners: Seq<StripCorners>, i: int)
    requires
        corners.len() == strips.len(),
        0 <= i < strips.len(),
    ensures
        triangles_of(strips, corners).len() == 6 * strips.len(),
        ({
            let six = triangles_of(strips, corners).subrange(6 * i, 6 * i + 6);
            let c = corners[i];
            if strips[i].ring_face.aligned {
                triangles_run(six, c.a0, c.a1) && triangles_run(six, c.b1, c.b0)
            } else {
                triangles_run(six, c.a1, c.a0) && triangles_run(six, c.b0, c.b1)
            }
        }),
        strips[i].step > 0 ==> seams_of(strips, corners).contains((corners[i].a0, corners[i].b0)),
    decreases strips.len(),
{
    let rest = strips.drop_last();
    let some = corners.drop_last();
    let n = strips.len() - 1;
    let all = triangles_of(strips, corners);
    let c = corners.last();
    let six = strip_triangles(strips.last().ring_face.aligned, c.a0, c.a1, c.b0, c.b1);
    assert(all == triangles_of(rest, some) + six);
    if n > 0 {
        law_every_strip_is_filled(
            rest,
            some,
            if i < n {
                i
            } else {
                0
            },
        );
    } else {
        assert(triangles_of(rest, some).len() == 0);
    }
    if i < n {
        assert(all.subrange(6 * i, 6 * i + 6) =~= triangles_of(rest, some).subrange(
            6 * i,
            6 * i + 6,
        ));
        assert(some[i] == corners[i] && rest[i] == strips[i]);
        if strips[i].step > 0 {
            let before = seams_of(rest, some);
            let k = choose|k: int| 0 <= k < before.len() && before[k] == (corners[i].a0, corners[i].b0);
            assert(seams_of(strips, corners)[k] == before[k]);
        }
    } else {
        assert(all.subrange(6 * i, 6 * i + 6) =~= six);
        if strips[i].step > 0 {
            let before = seams_of(rest, some);
            assert(seams_of(strips, corners)[before.len() as int] == (corners[i].a0, corners[i].b0));
        }
    }
}

proof fn lemma_face_of_triangle(topo: Topology, upto: nat, t: usize)
    requires
        upto <= topo.faces@.len() <= usize::MAX,
    ensures
        face_of_triangle(topo, upto, t) matches Some(f) ==> f < upto
            && topo.faces@[f as int].tris@.contains(t),
        face_of_triangle(topo, upto, t) is None ==> forall|f: int|
            0 <= f < upto ==> !(#[trigger] topo.faces@[f]).tris@.contains(t),
    decreases upto,
{
    if upto > 0 {
        lemma_face_of_triangle(topo, (upto - 1) as nat, t);
    }
}

/// Triangle `t` is listed by a face that is rebuilt, or by one that is not.
pub open spec fn is_listed(topo: Topology, faces: Seq<usize>, t: usize, among: bool) -> bool {
    exists|f: int|
        0 <= f < topo.faces@.len() && (#[trigger] topo.faces@[f]).tris@.contains(t)
            && faces.contains(f as usize) == among
}

/// Outside the ring the mesh is untouched: a triangle that no rebuilt face
/// lists keeps its vertices and their order, one that only rebuilt faces list
/// is gone, and nothing else is there.
pub proof fn law_other_triangles_stay(
    indices: Seq<u32>,
    topo: Topology,
    rebuilt: Seq<usize>,
    count: nat,
    t: usize,
)
    requires
        topo.faces@.len() <= usize::MAX,
        t < count <= usize::MAX,
    ensures
        ({
            let kept = kept_triangles(indices, topo, rebuilt, count);
            let before = kept_triangles(indices, topo, rebuilt, t as nat);
            let after = kept_triangles(indices, topo, rebuilt, (t + 1) as nat);
            &&& before.is_prefix_of(after) && after.is_prefix_of(kept)
            &&& !is_listed(topo, rebuilt, t, true) ==> after == before + seq![
                indices[3 * t],
                indices[3 * t + 1],
                indices[3 * t + 2],
            ]
            &&& is_listed(topo, rebuilt, t, true) && !is_listed(topo, rebuilt, t, false) ==> after
                == before
        }),
    decreases count,
{
    lemma_face_of_triangle(topo, topo.faces@.len(), t);
    let before = kept_triangles(indices, topo, rebuilt, t as nat);
    let after = kept_triangles(indices, topo, rebuilt, (t + 1) as nat);
    let face = face_of_triangle(topo, topo.faces@.len(), t);
    if face is Some {
        assert(topo.faces@[face->0 as int].tris@.contains(t));
    }
    assert(before.is_prefix_of(after));
    if count > t + 1 {
        law_other_triangles_stay(indices, topo, rebuilt, (count - 1) as nat, t);
    }
}

/// The vertex lies `step / of` of the way from one welded vertex to another:
/// at an end it is a mesh vertex that is welded to it, between the ends it is
/// as far from either as it should be.
pub open spec fn lies_at(
    topo: Topology,
    source: VertexSource,
    from: usize,
    to: usize,
    step: int,
    of: int,
) -> bool {
    match source {
        VertexSource::Mesh(v) => (step == 0 && topo.weld_of@[v as int] == from) || (step == of
            && topo.weld_of@[v as int] == to),
        VertexSource::Between { from: a, to: b, step: s, of: o } => {
            &&& 0 < step < of
            &&& o == of
            &&& (a == from && b == to && s == step) || (a == to && b == from && s + step == of)
        },
    }
}

proof fn lemma_point_lies_there(
    indices: Seq<u32>,
    vertices: nat,
    seams: Seq<(u32, u32)>,
    topo: Topology,
    ring: Seq<RingFace>,
    cuts: usize,
    corners: Seq<StripCorners>,
    full: MeshData<VertexSource>,
    p: CutPoint,
    v: u32,
)
    requires
        valid(topo, indices),
        vertices == topo.weld_of@.len(),
        vertices <= u32::MAX,
        cuts < usize::MAX,
        is_cut(indices, vertices, seams, topo, ring, cuts, corners, full),
        p.face < topo.faces@.len(),
        p.from != p.to,
        p.step <= cuts + 1,
        ({
            let points = new_points(indices, topo, ring, cuts, strip_points(strips_of(ring, cuts)));
            &&& forall|i: int| 0 <= i < points.len() ==> (#[trigger] points[i]).step <= cuts + 1
            &&& is_vertex_at(indices, topo, ring, cuts, vertices, points, p, v)
        }),
    ensures
        v < full.positions@.len(),
        lies_at(topo, full.positions@[v as int], p.from, p.to, p.step as int, cuts + 1),
{
    let points = new_points(indices, topo, ring, cuts, strip_points(strips_of(ring, cuts)));
    law_cut_vertices_lie_on_their_edge(indices, topo, ring, cuts, vertices, points, p, v);
    let tris = topo.faces@[p.face as int].tris@;
    assert forall|i: int| 0 <= i < tris.len() implies 3 * (#[trigger] tris[i]) + 2
        < indices.len() by {
        assert(topo.faces@[p.face as int].tris@[i] < topo.tris@.len());
    }
    lemma_corner_is_vertex(indices, topo.weld_of@, tris, p.from);
    lemma_corner_is_vertex(indices, topo.weld_of@, tris, p.to);
    if p.step == 0 || p.step == cuts + 1 {
        assert(v < vertices);
        assert(full.positions@[v as int] == VertexSource::Mesh(v));
    } else {
        let q = points[v - vertices];
        assert(full.positions@[v as int] == (VertexSource::Between {
            from: q.from,
            to: q.to,
            step: q.step,
            of: (cuts + 1) as usize,
        }));
    }
}

proof fn lemma_strip_steps(ring: Seq<RingFace>, cuts: usize)
    requires
        cuts < usize::MAX,
    ensures
        forall|i: int|
            0 <= i < strips_of(ring, cuts).len() ==> (#[trigger] strips_of(ring, cuts)[i]).step
                <= cuts,
    decreases ring.len(),
{
    if ring.len() > 0 {
        lemma_strip_steps(ring.drop_last(), cuts);
        let before = strips_of(ring.drop_last(), cuts);
        assert forall|i: int| 0 <= i < strips_of(ring, cuts).len() implies (
        #[trigger] strips_of(ring, cuts)[i]).step <= cuts by {
            if i < before.len() {
                assert(strips_of(ring, cuts)[i] == before[i]);
            }
        }
    }
}

proof fn lemma_point_steps(strips: Seq<Strip>, cuts: usize)
    requires
        cuts < usize::MAX,
        forall|i: int| 0 <= i < strips.len() ==> (#[trigger] strips[i]).step <= cuts,
    ensures
        forall|i: int|
            0 <= i < strip_points(strips).len() ==> (#[trigger] strip_points(strips)[i]).step
                <= cuts + 1,
    decreases strips.len(),
{
    if strips.len() > 0 {
        let rest = strips.drop_last();
        assert forall|i: int| 0 <= i < rest.len() implies (#[trigger] rest[i]).step <= cuts by {
            assert(rest[i] == strips[i]);
        }
        lemma_point_steps(rest, cuts);
        let before = strip_points(rest);
        let last = strips[strips.len() - 1];
        assert(last.step <= cuts);
        assert(strips.last() == last);
        assert forall|i: int| 0 <= i < strip_points(strips).len() implies (
        #[trigger] strip_points(strips)[i]).step <= cuts + 1 by {
            if i < before.len() {
                assert(strip_points(strips)[i] == before[i]);
            } else {
                assert(strip_points(strips)[i] == last.points()[i - before.len()]);
            }
        }
    }
}

/// Strip `j` of the quad number `i` of the ring reaches from step `j` to
/// step `j + 1` of equal parts, along the entry edge of that quad and along
/// its exit edge.
pub proof fn law_strips_divide_the_edges_evenly(
    indices: Seq<u32>,
    vertices: nat,
    seams: Seq<(u32, u32)>,
    topo: Topology,
    ring: Seq<RingFace>,
    cuts: usize,
    corners: Seq<StripCorners>,
    full: MeshData<VertexSource>,
    i: int,
    j: int,
)
    requires
        valid(topo, indices),
        vertices == topo.weld_of@.len(),
        vertices <= u32::MAX,
        cuts < usize::MAX,
        within(ring, topo),
        is_cut(indices, vertices, seams, topo, ring, cuts, corners, full),
        0 <= i < ring.len(),
        0 <= j <= cuts,
        ring[i].entry.0 != ring[i].entry.1,
        ring[i].exit.0 != ring[i].exit.1,
    ensures
        0 <= i * (cuts + 1) + j < corners.len(),
        ({
            let c = corners[i * (cuts + 1) + j];
            let r = ring[i];
            let at = full.positions@;
            &&& lies_at(topo, at[c.a0 as int], r.entry.0, r.entry.1, j, cuts + 1)
            &&& lies_at(topo, at[c.a1 as int], r.entry.0, r.entry.1, j + 1, cuts + 1)
            &&& lies_at(topo, at[c.b0 as int], r.exit.0, r.exit.1, j, cuts + 1)
            &&& lies_at(topo, at[c.b1 as int], r.exit.0, r.exit.1, j + 1, cuts + 1)
        }),
{
    law_every_quad_is_cut(ring, cuts, i, j);
    let strips = strips_of(ring, cuts);
    let points = new_points(indices, topo, ring, cuts, strip_points(strips));
    let k = i * (cuts + 1) + j;
    let c = corners[k];
    let p = strips[k].points();
    lemma_strip_steps(ring, cuts);
    lemma_point_steps(strips, cuts);
    law_each_place_gets_one_vertex(indices, topo, ring, cuts, strip_points(strips));
    assert forall|m: int| 0 <= m < points.len() implies (#[trigger] points[m]).step <= cuts + 1 by {
        assert(strip_points(strips).contains(points[m]));
        let n = choose|n: int|
            0 <= n < strip_points(strips).len() && strip_points(strips)[n] == points[m];
        assert(strip_points(strips)[n].step <= cuts + 1);
    }
    assert(ring[i].face < topo.faces@.len());
    lemma_point_lies_there(indices, vertices, seams, topo, ring, cuts, corners, full, p[0], c.a0);
    lemma_point_lies_there(indices, vertices, seams, topo, ring, cuts, corners, full, p[1], c.a1);
    lemma_point_lies_there(indices, vertices, seams, topo, ring, cuts, corners, full, p[2], c.b0);
    lemma_point_lies_there(indices, vertices, seams, topo, ring, cuts, corners, full, p[3], c.b1);
}

/// The cut adds and takes nothing else: the old vertices keep their numbers
/// and places, the old seams stay first, and the triangles are those that
/// stay and two for each strip.
pub proof fn law_cut_keeps_what_it_does_not_cut(
    indices: Seq<u32>,
    vertices: nat,
    seams: Seq<(u32, u32)>,
    topo: Topology,
    ring: Seq<RingFace>,
    cuts: usize,
    corners: Seq<StripCorners>,
    full: MeshData<VertexSource>,
)
    requires
        is_cut(indices, vertices, seams, topo, ring, cuts, corners, full),
        vertices <= u32::MAX,
        ring.len() > 0,
    ensures
        forall|v: u32| v < vertices ==> #[trigger] full.positions@[v as int] == VertexSource::Mesh(v),
        seams.is_prefix_of(full.seams@),
        full.indices@.len() == kept_triangles(
            indices,
            topo,
            ring_faces(ring),
            topo.tris@.len(),
        ).len() + 6 * (ring.len() * (cuts + 1)),
{
    law_every_quad_is_cut(ring, cuts, 0, 0);
    law_every_strip_is_filled(strips_of(ring, cuts), corners, 0);
}

} // verus!
