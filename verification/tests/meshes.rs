//! Mesh surgery on concrete meshes: the library says which vertices there are
//! and how they are joined, and the helpers here say where they are.

use glam::Vec3;
use modeler_app::bevel::{
    bevel_edge, bevel_plan, bevel_polygons, bevel_room, BevelPlan, BevelPoint, BevelVertex,
    Triangle,
};
use modeler_app::edge_ring::{cross_quad, edge_face_map, walk_ring};
use modeler_app::mesh_data::{compact, split_corners, MeshData};
use modeler_app::mesh_edit::{is_described, loop_cut, VertexSource};
use modeler_app::modifier_ops::{apply, set_subdivision, subdivision_only_levels, Evaluated};
use modeler_app::modifiers::{evaluate, evaluate_stack, MeshStep};
use modeler_app::scalar::{Scalar, Transform};
use modeler_app::scene::{Handle, Object, ObjectId, Primitive, RopeEnd, Scene};
use modeler_app::subdivision::{edge_table, refine, wants_round, RefinedPoint, VertexRule};
use modeler_app::topology::{ekey, face_loop, outline_loop, FaceGroup, Topology};
use std::collections::{BTreeMap, BTreeSet};

type Mesh = MeshData<Vec3>;

struct Welded {
    topo: Topology,
    verts: Vec<Vec3>,
    edges: Vec<(usize, usize)>,
}

fn normal(verts: &[Vec3], t: [usize; 3]) -> Vec3 {
    (verts[t[1]] - verts[t[0]]).cross(verts[t[2]] - verts[t[0]])
}

/// Welds vertices at one place, and joins triangles that lie in one plane
/// across edges that are no seams.
fn build_topology(mesh: &Mesh) -> Welded {
    let mut verts: Vec<Vec3> = Vec::new();
    let mut weld_of = Vec::new();
    for p in &mesh.positions {
        let at = verts.iter().position(|v| v.distance(*p) < 1e-4);
        weld_of.push(at.unwrap_or(verts.len()));
        if at.is_none() {
            verts.push(*p);
        }
    }
    let tris: Vec<[usize; 3]> = mesh
        .indices
        .chunks_exact(3)
        .map(|t| [0, 1, 2].map(|k| weld_of[t[k] as usize]))
        .collect();
    let seams: BTreeSet<(usize, usize)> =
        mesh.seams.iter().map(|&(a, b)| ekey(weld_of[a as usize], weld_of[b as usize])).collect();
    let sides = |t: [usize; 3]| [ekey(t[0], t[1]), ekey(t[1], t[2]), ekey(t[2], t[0])];
    let mut of_edge: BTreeMap<(usize, usize), Vec<usize>> = BTreeMap::new();
    for (i, t) in tris.iter().enumerate() {
        for e in sides(*t) {
            of_edge.entry(e).or_default().push(i);
        }
    }
    let unit = |t: usize| normal(&verts, tris[t]).normalize_or_zero();
    let mut face_of = vec![usize::MAX; tris.len()];
    let mut faces = Vec::new();
    for start in 0..tris.len() {
        if face_of[start] != usize::MAX {
            continue;
        }
        let mut group = vec![start];
        face_of[start] = faces.len();
        let mut next = 0;
        while next < group.len() {
            let t = group[next];
            next += 1;
            for e in sides(tris[t]) {
                if seams.contains(&e) {
                    continue;
                }
                for &other in &of_edge[&e] {
                    if face_of[other] == usize::MAX && unit(t).dot(unit(other)) > 0.9999 {
                        face_of[other] = faces.len();
                        group.push(other);
                    }
                }
            }
        }
        let mut count: BTreeMap<(usize, usize), usize> = BTreeMap::new();
        for &t in &group {
            for e in sides(tris[t]) {
                *count.entry(e).or_default() += 1;
            }
        }
        let outline = count.iter().filter(|(_, n)| **n == 1).map(|(e, _)| *e).collect();
        faces.push(FaceGroup { tris: group, outline });
    }
    let edges: BTreeSet<(usize, usize)> =
        faces.iter().flat_map(|f: &FaceGroup| f.outline.iter().copied()).collect();
    let topo = Topology { vert_count: verts.len(), weld_of, tris, faces };
    Welded { topo, verts, edges: edges.into_iter().collect() }
}

fn polygon_area_vector(points: &[Vec3]) -> Vec3 {
    (0..points.len()).map(|i| points[i].cross(points[(i + 1) % points.len()])).sum()
}

fn turned(w: &Welded) -> Vec<bool> {
    (0..w.topo.faces.len())
        .map(|f| {
            face_loop(&w.topo, f, false).is_some_and(|l| {
                let points: Vec<Vec3> = l.iter().map(|&v| w.verts[v]).collect();
                let n = normal(&w.verts, w.topo.tris[w.topo.faces[f].tris[0]]);
                polygon_area_vector(&points).dot(n) < 0.0
            })
        })
        .collect()
}

fn polygons(faces: &[Vec<Vec3>], shared: bool) -> Mesh {
    let mut mesh = Mesh { positions: Vec::new(), indices: Vec::new(), seams: Vec::new() };
    for face in faces {
        let at: Vec<u32> = face
            .iter()
            .map(|p| {
                let known = mesh.positions.iter().position(|q| shared && q.distance(*p) < 1e-5);
                known.unwrap_or_else(|| {
                    mesh.positions.push(*p);
                    mesh.positions.len() - 1
                }) as u32
            })
            .collect();
        for k in 1..at.len() - 1 {
            mesh.indices.extend([at[0], at[k], at[k + 1]]);
        }
    }
    mesh
}

/// A cube of side two around the origin, every face with its own vertices.
fn cube() -> (Mesh, Welded) {
    let p = |x: f32, y: f32, z: f32| Vec3::new(x, y, z);
    let faces = vec![
        vec![p(-1., -1., -1.), p(-1., 1., -1.), p(1., 1., -1.), p(1., -1., -1.)],
        vec![p(-1., -1., 1.), p(1., -1., 1.), p(1., 1., 1.), p(-1., 1., 1.)],
        vec![p(-1., -1., -1.), p(1., -1., -1.), p(1., -1., 1.), p(-1., -1., 1.)],
        vec![p(-1., 1., -1.), p(-1., 1., 1.), p(1., 1., 1.), p(1., 1., -1.)],
        vec![p(-1., -1., -1.), p(-1., -1., 1.), p(-1., 1., 1.), p(-1., 1., -1.)],
        vec![p(1., -1., -1.), p(1., 1., -1.), p(1., 1., 1.), p(1., -1., 1.)],
    ];
    let mesh = polygons(&faces, false);
    let topo = build_topology(&mesh);
    (mesh, topo)
}

fn plane() -> Mesh {
    let p = |x: f32, y: f32| Vec3::new(x, y, 0.0);
    polygons(&[vec![p(-1., -1.), p(1., -1.), p(1., 1.), p(-1., 1.)]], false)
}

fn uv_sphere(segments: usize, rings: usize, smooth: bool) -> Mesh {
    let at = |r: usize, s: usize| {
        let polar = std::f32::consts::PI * r as f32 / rings as f32;
        let around = std::f32::consts::TAU * (s % segments) as f32 / segments as f32;
        Vec3::new(polar.sin() * around.cos(), polar.sin() * around.sin(), polar.cos())
    };
    let mut faces = Vec::new();
    for s in 0..segments {
        faces.push(vec![Vec3::Z, at(1, s), at(1, s + 1)]);
        for r in 1..rings - 1 {
            faces.push(vec![at(r, s), at(r + 1, s), at(r + 1, s + 1), at(r, s + 1)]);
        }
        faces.push(vec![at(rings - 1, s), Vec3::NEG_Z, at(rings - 1, s + 1)]);
    }
    polygons(&faces, smooth)
}

fn icosahedron() -> Mesh {
    let t = (1.0 + 5.0f32.sqrt()) / 2.0;
    let mut corners = Vec::new();
    for (a, b) in [(-1.0, t), (1.0, t), (-1.0, -t), (1.0, -t)] {
        corners.push(Vec3::new(a, b, 0.0));
        corners.push(Vec3::new(0.0, a, b));
        corners.push(Vec3::new(b, 0.0, a));
    }
    let mut faces = Vec::new();
    for i in 0..12 {
        for j in i + 1..12 {
            for k in j + 1..12 {
                let close = |a: usize, b: usize| corners[a].distance(corners[b]) < 2.1;
                if close(i, j) && close(j, k) && close(i, k) {
                    let (a, b, c) = (corners[i], corners[j], corners[k]);
                    let out = (b - a).cross(c - a).dot(a) > 0.0;
                    faces.push(if out { vec![a, b, c] } else { vec![a, c, b] });
                }
            }
        }
    }
    assert_eq!(faces.len(), 20);
    polygons(&faces, false)
}

fn cut(mesh: &Mesh, w: &Welded, edge: (usize, usize), cuts: usize) -> Option<Mesh> {
    let made = loop_cut(mesh, &w.topo, &turned(w), edge, cuts)?;
    let positions = made
        .positions
        .iter()
        .map(|v| match *v {
            VertexSource::Mesh(i) => mesh.positions[i as usize],
            VertexSource::Between { from, to, step, of } => {
                w.verts[from].lerp(w.verts[to], step as f32 / of as f32)
            }
        })
        .collect();
    Some(Mesh { positions, indices: made.indices, seams: made.seams })
}

fn f(x: f32) -> Scalar {
    Scalar::of_bits(x.to_bits())
}

fn limit_of(w: &Welded, plan: &BevelPlan) -> Option<f32> {
    let length = |a: usize, b: usize| f(w.verts[a].distance(w.verts[b]));
    let room = bevel_room(
        length(plan.a, plan.a0),
        length(plan.a, plan.a1),
        length(plan.b, plan.b0),
        length(plan.b, plan.b1),
    )?;
    Some(0.9 * f32::from_bits(room.bits))
}

fn bevel(
    mesh: &Mesh,
    w: &Welded,
    edge: (usize, usize),
    width: f32,
    segments: usize,
) -> Option<Mesh> {
    let plan = bevel_plan(&w.topo, &turned(w), edge)?;
    let width = width.clamp(1e-4, limit_of(w, &plan)?);
    let slide = |from: usize, to: usize| {
        w.verts[from] + (w.verts[to] - w.verts[from]).normalize() * width
    };
    let arc = |v: usize, t0: usize, t1: usize| -> Vec<Vec3> {
        let (c0, p, c1) = (slide(v, t0), w.verts[v], slide(v, t1));
        (0..=segments)
            .map(|j| {
                let t = j as f32 / segments as f32;
                c0 * (1.0 - t) * (1.0 - t) + p * 2.0 * (1.0 - t) * t + c1 * t * t
            })
            .collect()
    };
    let arcs = [arc(plan.a, plan.a0, plan.a1), arc(plan.b, plan.b0, plan.b1)];
    let side = |face: usize| normal(&w.verts, w.topo.tris[w.topo.faces[face].tris[0]]).normalize();
    let outward = side(plan.side0) + side(plan.side1);
    let coarse = [arcs[0][0], arcs[1][0], arcs[1][segments], arcs[0][segments]];
    let flip = polygon_area_vector(&coarse).dot(outward) < 0.0;
    let polys = bevel_polygons(&plan, segments, flip);
    // All of them are convex here.
    let tris: Vec<Vec<Triangle>> = polys
        .iter()
        .map(|p| (1..p.len() as u32 - 1).map(|k| Triangle { x: 0, y: k, z: k + 1 }).collect())
        .collect();
    let made = bevel_edge(mesh, &w.topo, &plan, &polys, &tris)?;
    let at = |p: &BevelPoint| match *p {
        BevelPoint::Vertex(v) => w.verts[v],
        BevelPoint::Profile { second, row } => arcs[second as usize][row],
    };
    let positions = made
        .positions
        .iter()
        .map(|v| match v {
            BevelVertex::Mesh(i) => mesh.positions[*i as usize],
            BevelVertex::New(p) => at(p),
        })
        .collect();
    Some(Mesh { positions, indices: made.indices, seams: made.seams })
}

fn catmull_clark(mesh: &Mesh) -> Mesh {
    let w = build_topology(mesh);
    let refined = refine(&w.topo, &turned(&w)).expect("there is room");
    let middle = |k: usize| -> Vec3 {
        let l = &refined.faces[k];
        l.iter().map(|&v| w.verts[v]).sum::<Vec3>() / l.len() as f32
    };
    let halfway = |e: usize| 0.5 * (w.verts[refined.edges[e].low] + w.verts[refined.edges[e].high]);
    let positions = refined
        .mesh
        .positions
        .iter()
        .map(|p| match *p {
            RefinedPoint::Face(k) => middle(k),
            RefinedPoint::Edge(e) => match refined.edges[e].faces[..] {
                [one, two] => 0.5 * halfway(e) + 0.25 * (middle(one) + middle(two)),
                _ => halfway(e),
            },
            RefinedPoint::Vertex(v) => match &refined.rules[v] {
                VertexRule::Rim { one, two } => {
                    (w.verts[*one] + 6.0 * w.verts[v] + w.verts[*two]) / 8.0
                }
                VertexRule::Pinned => w.verts[v],
                VertexRule::Inner { faces, edges } => {
                    let n = edges.len() as f32;
                    let q = faces.iter().map(|&k| middle(k)).sum::<Vec3>() / faces.len() as f32;
                    let r = edges.iter().map(|&e| halfway(e)).sum::<Vec3>() / n;
                    (q + 2.0 * r + (n - 3.0) * w.verts[v]) / n
                }
            },
        })
        .collect();
    Mesh {
        positions,
        indices: refined.mesh.indices.clone(),
        seams: refined.mesh.seams.clone(),
    }
}

fn subdivide(mesh: &Mesh, levels: u8, smooth: bool) -> Mesh {
    let mut current = Mesh {
        positions: mesh.positions.clone(),
        indices: mesh.indices.clone(),
        seams: mesh.seams.clone(),
    };
    let mut done = 0;
    while wants_round(done, levels, current.indices.len()) {
        current = catmull_clark(&current);
        done += 1;
    }
    if smooth {
        current
    } else {
        split_corners(&current)
    }
}

fn find_edge(w: &Welded, predicate: impl Fn(Vec3, Vec3) -> bool) -> (usize, usize) {
    *w.edges.iter().find(|&&(a, b)| predicate(w.verts[a], w.verts[b])).expect("edge")
}

fn validate(m: &Mesh) {
    assert!(m.indices.len() % 3 == 0 && !m.indices.is_empty());
    for &i in &m.indices {
        assert!((i as usize) < m.positions.len());
    }
    for t in m.indices.chunks_exact(3) {
        let n = normal(&m.positions, [t[0] as usize, t[1] as usize, t[2] as usize]);
        assert!((n.normalize().length() - 1.0).abs() < 1e-3, "bad normal {n:?}");
    }
}

fn volume(m: &Mesh) -> f32 {
    m.indices
        .chunks_exact(3)
        .map(|t| {
            let [a, b, c] = [0, 1, 2].map(|k| m.positions[t[k] as usize]);
            a.dot(b.cross(c)) / 6.0
        })
        .sum()
}

#[test]
fn cube_face_loops_are_ccw_quads() {
    let (_, w) = cube();
    let against = turned(&w);
    for k in 0..w.topo.faces.len() {
        let lp = face_loop(&w.topo, k, against[k]).expect("cube faces are simple quads");
        assert_eq!(lp.len(), 4);
        let n = normal(&w.verts, w.topo.tris[w.topo.faces[k].tris[0]]);
        let points: Vec<Vec3> = lp.iter().map(|&v| w.verts[v]).collect();
        assert!(polygon_area_vector(&points).dot(n) > 0.0);
    }
}

#[test]
fn loop_cut_on_a_cube_closes_the_ring() {
    let (mesh, topo) = cube();
    // a top edge along X: the ring runs around the 4 side faces
    let edge = find_edge(&topo, |a, b| {
        (a.z - 1.0).abs() < 1e-4 && (b.z - 1.0).abs() < 1e-4 && (a.y - b.y).abs() < 1e-4
    });
    let made = cut(&mesh, &topo, edge, 1).expect("ring of quads");
    validate(&made);
    assert!((volume(&made) - 8.0).abs() < 1e-3, "volume {}", volume(&made));

    let new_topo = build_topology(&made);
    // the loop adds one welded vertex on each of the 4 cut edges
    assert_eq!(new_topo.verts.len(), 12);
    // cube edges: 12 + (4 ring edges split into 2) + 4 new loop segments
    assert_eq!(new_topo.edges.len(), 20);
    assert_eq!(new_topo.topo.faces.len(), 10, "4 side quads split in two");
}

#[test]
fn loop_cut_counts_scale_with_cuts() {
    let (mesh, topo) = cube();
    let edge = find_edge(&topo, |a, b| {
        (a.z - 1.0).abs() < 1e-4 && (b.z - 1.0).abs() < 1e-4 && (a.y - b.y).abs() < 1e-4
    });
    for cuts in [2usize, 5] {
        let made = cut(&mesh, &topo, edge, cuts).expect("ring");
        validate(&made);
        assert!((volume(&made) - 8.0).abs() < 1e-3);
        let t = build_topology(&made);
        assert_eq!(t.verts.len(), 8 + 4 * cuts);
        assert_eq!(t.topo.faces.len(), 6 - 4 + 4 * (cuts + 1));
    }
}

#[test]
fn loop_cut_keeps_smooth_spheres_smooth() {
    let mesh = uv_sphere(8, 4, true);
    let shared_before = mesh.positions.len();
    let topo = build_topology(&mesh);
    // an equator-adjacent edge going around a ring of quads
    let edge = find_edge(&topo, |a, b| {
        a.z.abs() > 1e-3 && (a.z - b.z).abs() < 1e-4 // horizontal edge off the poles
    });
    let made = cut(&mesh, &topo, edge, 1).expect("sphere quads form a ring");
    validate(&made);
    // smooth sharing preserved: the rebuilt band reuses shared vertices,
    // so the count grows only by the newly inserted loop
    assert!(made.positions.len() < shared_before + 2 * 8 + 2);
}

#[test]
fn loop_cut_needs_a_quad() {
    // an icosphere has no quads at all
    let mesh = icosahedron();
    let topo = build_topology(&mesh);
    assert!(cut(&mesh, &topo, topo.edges[0], 1).is_none());
}

#[test]
fn bevel_chamfers_a_cube_edge() {
    let (mesh, topo) = cube();
    let edge = find_edge(&topo, |a, b| {
        (a.z - 1.0).abs() < 1e-4
            && (b.z - 1.0).abs() < 1e-4
            && (a.y - 1.0).abs() < 1e-4
            && (b.y - 1.0).abs() < 1e-4
    });
    let beveled = bevel(&mesh, &topo, edge, 0.4, 1).expect("box corner");
    validate(&beveled);

    let t = build_topology(&beveled);
    // the two edge vertices split into four
    assert_eq!(t.verts.len(), 10);
    // one new chamfer face
    assert_eq!(t.topo.faces.len(), 7);
    // the chamfer removes a 45° prism of material along the 2-long edge:
    // V = 8 - (0.4²/2) · 2
    let expect = 8.0 - 0.4 * 0.4 * 0.5 * 2.0;
    assert!((volume(&beveled) - expect).abs() < 1e-3, "volume {}", volume(&beveled));
    // width stays clamped to the geometric limit
    let wide = bevel(&mesh, &topo, edge, 100.0, 1).expect("clamped");
    validate(&wide);
}

#[test]
fn bevel_segments_round_the_edge() {
    let (mesh, topo) = cube();
    let edge = find_edge(&topo, |a, b| {
        (a.z - 1.0).abs() < 1e-4
            && (b.z - 1.0).abs() < 1e-4
            && (a.y - 1.0).abs() < 1e-4
            && (b.y - 1.0).abs() < 1e-4
    });
    for segments in [2usize, 4, 8] {
        let m = bevel(&mesh, &topo, edge, 0.4, segments).expect("box corner");
        validate(&m);
        let t = build_topology(&m);
        // each endpoint splits into the profile's segments+1 vertices
        assert_eq!(t.verts.len(), 2 * segments + 8);
        assert_eq!(t.topo.faces.len(), 6 + segments);
    }
    // rounding removes less material than the flat chamfer, approaching
    // the parabolic profile (w²/6 per unit of edge length)
    let flat = volume(&bevel(&mesh, &topo, edge, 0.4, 1).unwrap());
    let s2 = volume(&bevel(&mesh, &topo, edge, 0.4, 2).unwrap());
    let s8 = volume(&bevel(&mesh, &topo, edge, 0.4, 8).unwrap());
    assert!(flat < s2 && s2 < s8 && s8 < 8.0, "{flat} < {s2} < {s8} < 8");
    assert!((s2 - (8.0 - 0.4 * 0.4 / 4.0 * 2.0)).abs() < 1e-3, "s2 {s2}");
    assert!((s8 - (8.0 - 0.4 * 0.4 / 6.0 * 2.0)).abs() < 0.01, "s8 {s8}");
}

#[test]
fn bevel_limit_matches_short_adjacent_edges() {
    let (_, topo) = cube();
    let edge = find_edge(&topo, |a, b| {
        (a.z - 1.0).abs() < 1e-4 && (b.z - 1.0).abs() < 1e-4 && (a.y - b.y).abs() < 1e-4
    });
    let plan = bevel_plan(&topo.topo, &turned(&topo), edge).expect("cube edge");
    let limit = limit_of(&topo, &plan).expect("cube edge");
    assert!((limit - 0.9 * 2.0).abs() < 1e-4);
}

#[test]
fn subdivision_rounds_a_cube() {
    let (mesh, _) = cube();
    let sub = subdivide(&mesh, 1, true);
    validate(&sub);
    let t = build_topology(&sub);
    // V + F + E = 8 + 6 + 12 shared vertices, 6 faces × 4 corner quads
    assert_eq!(t.verts.len(), 26);
    assert_eq!(sub.indices.len() / 3, 48);
    // one Catmull-Clark round of a 2³ cube encloses exactly 10/3
    let v1 = volume(&sub);
    assert!((v1 - 10.0 / 3.0).abs() < 1e-3, "rounded cube volume {v1}");
    // more levels keep shrinking toward the smooth limit surface
    let v2 = volume(&subdivide(&mesh, 2, true));
    assert!(v2 < v1 && v2 > 2.5, "level 2 volume {v2}");
    // flat shading re-expands to per-face vertices
    let flat = subdivide(&mesh, 1, false);
    validate(&flat);
    assert_eq!(flat.positions.len(), flat.indices.len());
}

#[test]
fn subdivision_respects_open_boundaries() {
    // a plane stays flat; its rim smooths inward like Blender's subsurf
    let mesh = plane();
    let sub = subdivide(&mesh, 1, true);
    validate(&sub);
    for p in &sub.positions {
        assert!(p.z.abs() < 1e-5, "stays planar: {p:?}");
    }
    // boundary edge midpoints stay on the old rim (extents hold), while
    // the corners pull in to (±0.75, ±0.75)
    let far = sub.positions.iter().map(|p| p.x).fold(f32::MIN, f32::max);
    let near = sub.positions.iter().map(|p| p.x).fold(f32::MAX, f32::min);
    assert!((far - near - 2.0).abs() < 1e-4, "rim midpoints hold: {far} {near}");
    let reach = sub.positions.iter().map(|p| p.x.abs() + p.y.abs()).fold(0.0f32, f32::max);
    assert!((reach - 1.5).abs() < 1e-4, "corners round off: {reach}");
    // deterministic output: same input, same vertex order
    let again = subdivide(&mesh, 1, true);
    assert_eq!(sub.positions, again.positions);
    assert_eq!(sub.indices, again.indices);
}

#[test]
fn bevel_refuses_unsupported_corners() {
    // sphere vertices have more than three incident faces
    let mesh = uv_sphere(8, 4, false);
    let topo = build_topology(&mesh);
    assert!(bevel(&mesh, &topo, topo.edges[0], 0.1, 1).is_none());
}

#[test]
fn an_outline_in_any_order_is_one_loop() {
    assert_eq!(ekey(5, 2), (2, 5));
    let lp = outline_loop(&vec![(0, 1), (2, 3), (1, 2), (0, 3)]).expect("a square");
    assert_eq!(lp.len(), 4);
    for k in 0..4 {
        let step = ekey(lp[k], lp[(k + 1) % 4]);
        assert!([(0, 1), (1, 2), (2, 3), (0, 3)].contains(&step));
    }
    // two squares are no loop, nor is an open path
    let two = vec![(0, 1), (1, 2), (0, 2), (3, 4), (4, 5), (3, 5)];
    assert!(outline_loop(&two).is_none());
    assert!(outline_loop(&vec![(0, 1), (1, 2)]).is_none());
}

#[test]
fn a_quad_is_crossed_to_its_far_side() {
    assert_eq!(cross_quad(&vec![4, 5, 6, 7], 4, 5).map(|(e, _)| ekey(e.0, e.1)), Some((6, 7)));
    assert!(cross_quad(&vec![4, 5, 6, 7], 4, 6).is_none());
}

#[test]
fn the_ring_of_a_cube_passes_four_faces_once() {
    let (_, w) = cube();
    let against = turned(&w);
    let loops = (0..6).map(|k| face_loop(&w.topo, k, against[k])).collect();
    let edge = w.edges[0];
    assert_eq!(edge_face_map(&w.topo, edge).len(), 2);
    let ring = walk_ring(&w.topo, &loops, edge);
    let met: BTreeSet<usize> = ring.iter().map(|r| r.face).collect();
    assert_eq!((ring.len(), met.len()), (4, 4));
}

#[test]
fn unused_vertices_are_dropped() {
    let mut mesh = MeshData {
        positions: vec!['a', 'b', 'c', 'd', 'e'],
        indices: vec![4, 1, 2],
        seams: vec![(4, 1), (0, 2)],
    };
    compact(&mut mesh);
    assert_eq!(mesh.positions, vec!['e', 'b', 'c']);
    assert_eq!(mesh.indices, vec![0, 1, 2]);
    assert_eq!(mesh.seams, vec![(0, 1)]);
    let split = split_corners(&MeshData {
        positions: vec!['a', 'b', 'c', 'd'],
        indices: vec![0, 1, 2, 0, 2, 3],
        seams: vec![(0, 2)],
    });
    assert_eq!(split.positions, vec!['a', 'b', 'c', 'a', 'c', 'd']);
    assert_eq!(split.indices, vec![0, 1, 2, 3, 4, 5]);
    assert!(split.seams.is_empty());
}

#[test]
fn every_edge_of_a_cage_is_listed_once() {
    let table = edge_table(&vec![vec![0, 1, 2], vec![0, 2, 3]], 4);
    let listed: Vec<(usize, usize, usize)> =
        table.iter().map(|e| (e.low, e.high, e.faces.len())).collect();
    assert_eq!(listed.len(), 5);
    assert!(listed.contains(&(0, 2, 2)) && listed.contains(&(2, 3, 1)));
}

#[test]
fn rounds_stop_at_the_level_or_at_a_large_mesh() {
    assert!(wants_round(0, 2, 36) && wants_round(1, 2, 36));
    assert!(!wants_round(2, 2, 36));
    assert!(wants_round(0, 1, 600_000));
    assert!(!wants_round(0, 1, 600_003));
}

#[test]
fn a_bevel_has_no_room_on_a_degenerate_edge() {
    assert_eq!(bevel_room(f(3.0), f(1.0), f(2.0), f(4.0)), Some(f(1.0)));
    assert_eq!(bevel_room(f(3.0), f(0.0), f(2.0), f(4.0)), None);
}

fn blank(primitive: Primitive) -> Object {
    let transform = Transform::default();
    let origin = transform.location;
    Object {
        id: ObjectId(0),
        name: "Object".to_string(),
        primitive,
        transform,
        pivot: origin,
        anchor: origin,
        parent: None,
        folder: None,
        visible: true,
        group: false,
        smooth: false,
        locked: false,
        dynamic: false,
        density: f(1000.0),
        bounciness: f(0.0),
        initial_force: origin,
        material: Handle(0),
        face_materials: Vec::new(),
        show_label: false,
        show_dimensions: false,
        modifiers: Vec::new(),
        edited_mesh: None,
        cutouts: Vec::new(),
        floor_outline: Vec::new(),
        terrain: None,
        rope_nodes: None,
        cloth_nodes: None,
        rope_start: RopeEnd::default(),
        rope_end: RopeEnd::default(),
        cloth_anchors: Vec::new(),
        mesh_revision: 0,
        sculpt_revision: 0,
    }
}

fn stack_mesh(steps: Vec<MeshStep>) -> Mesh {
    let mut mesh = cube().0;
    for step in steps {
        match step {
            MeshStep::Base(_) => mesh = cube().0,
            MeshStep::Subdivide { levels, smooth } => mesh = subdivide(&mesh, levels, smooth),
            _ => unreachable!(),
        }
    }
    mesh
}

#[test]
fn subdivision_modifier_smooths_and_applies() {
    let mut scene = Scene::new();
    let id = scene.insert_object(blank(Primitive::Cube { size: f(2.0) }));
    set_subdivision(&mut scene, id, 2);
    assert_eq!(subdivision_only_levels(&scene.object(id).unwrap().modifiers), Some(2));

    let preview = stack_mesh(evaluate(&scene, id));
    assert!(preview.indices.len() > 12 * 3, "more triangles than the cube");
    // Catmull-Clark pulls a lone cube well toward its limit ball
    let v = volume(&preview);
    assert!(v > 2.0 && v < 8.0, "rounded cube volume {v}");

    let baked = stack_mesh(evaluate_stack(&scene, id, usize::MAX, true));
    let outcome = Evaluated::Mesh { handle: Handle(5), empty: baked.indices.is_empty() };
    apply(&mut scene, id, usize::MAX, outcome).unwrap();
    let object = scene.object(id).unwrap();
    assert!(object.modifiers.is_empty());
    assert_eq!(object.edited_mesh, Some(Handle(5)));
    assert!((volume(&baked) - v).abs() < 1e-3, "apply matches the preview");

    // the compatibility shim also updates and removes
    set_subdivision(&mut scene, id, 3);
    set_subdivision(&mut scene, id, 1);
    assert_eq!(scene.object(id).unwrap().modifiers.len(), 1);
    set_subdivision(&mut scene, id, 0);
    assert!(scene.object(id).unwrap().modifiers.is_empty());
}

#[test]
fn a_mesh_that_names_no_vertex_is_not_sound() {
    let (mut mesh, w) = cube();
    assert!(mesh.is_sound() && is_described(&w.topo, &mesh));
    assert!(!is_described(&w.topo, &plane()));
    let count = mesh.positions.len() as u32;
    mesh.seams.push((0, count));
    assert!(!mesh.is_sound());
    mesh.seams.clear();
    mesh.indices[0] = count;
    assert!(!mesh.is_sound());
}
