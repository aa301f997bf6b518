//! What the physics world is asked: the shape of a body, what a ray hits,
//! what overlaps, and how far things fall.

use vstd::prelude::*;
use crate::physics::SimState;
use crate::scalar::{clamped, larger, Scalar, Vec3, INFINITY_BITS, ONE_BITS, SIGN_BIT};
use crate::scene::{place_of, Object, ObjectId, Primitive, Scene};
use crate::selection::contains;

verus! {

/// A thousandth: the least density of a body.
pub const LEAST_DENSITY_BITS: u32 = 0x3a83_126f;

/// A millionth: a ray that falls less than this runs along the grid.
pub const LEVEL_BITS: u32 = 0x3586_37bd;

/// The collision shape of an object. Mesh shapes are exact; hulls are
/// convex.
#[derive(Clone, Copy, PartialEq, Eq, Structural, Debug)]
pub enum ShapePlan {
    /// The mesh that the modifier stack gives.
    ModifiedMesh,
    /// The hull of the mesh that the modifier stack gives.
    ModifiedHull,
    /// A ball.
    Sphere { radius: Scalar },
    /// A thin box.
    Slab { size: Scalar },
    /// A capsule along the rope.
    RopeCapsule { length: Scalar, radius: Scalar },
    /// A thick sheet.
    ClothBox { width: Scalar, height: Scalar },
    /// The mesh of the primitive.
    PrimitiveMesh,
    /// The hull of the mesh of the primitive.
    PrimitiveHull,
    /// The mesh of the object as it collides.
    CollisionMesh,
    /// The hull of the mesh of the object as it collides.
    CollisionHull,
}

/// The shape of an object's body. `modified` says that an enabled modifier
/// stack gives it a mesh with triangles, `uniform` that its scale is the
/// same along all axes. An exact mesh cannot move, so a dynamic object gets a
/// hull in a simulation.
pub open spec fn shape_of(sim: SimState, o: Object, modified: bool, uniform: bool) -> ShapePlan {
    let exact = !o.dynamic || sim is Stopped;
    if modified {
        if exact {
            ShapePlan::ModifiedMesh
        } else {
            ShapePlan::ModifiedHull
        }
    } else if o.edited_mesh is Some {
        ShapePlan::CollisionHull
    } else {
        match o.primitive {
            Primitive::UvSphere { radius, .. } if uniform => ShapePlan::Sphere { radius },
            Primitive::IcoSphere { radius, .. } if uniform => ShapePlan::Sphere { radius },
            Primitive::Plane { size } => ShapePlan::Slab { size },
            Primitive::Rope { length, radius, .. } => ShapePlan::RopeCapsule { length, radius },
            Primitive::Cloth { width, height, .. } => ShapePlan::ClothBox { width, height },
            Primitive::Torus { .. } if exact => ShapePlan::PrimitiveMesh,
            Primitive::Wall { .. } if o.cutouts@.len() > 0 && exact => ShapePlan::CollisionMesh,
            Primitive::Terrain { .. } => if exact {
                ShapePlan::CollisionMesh
            } else {
                ShapePlan::CollisionHull
            },
            Primitive::Floor { .. } if o.floor_outline@.len() > 0 && exact =>
                ShapePlan::CollisionMesh,
            _ => ShapePlan::PrimitiveHull,
        }
    }
}

/// The shape of an object's body.
pub fn create_shape(sim: SimState, o: &Object, modified: bool, uniform: bool) -> (r: ShapePlan)
    ensures
        r == shape_of(sim, *o, modified, uniform),
{
    let exact = !o.dynamic || sim == SimState::Stopped;
    if modified {
        return if exact {
            ShapePlan::ModifiedMesh
        } else {
            ShapePlan::ModifiedHull
        };
    }
    if o.edited_mesh.is_some() {
        return ShapePlan::CollisionHull;
    }
    match o.primitive {
        Primitive::UvSphere { radius, .. } if uniform => ShapePlan::Sphere { radius },
        Primitive::IcoSphere { radius, .. } if uniform => ShapePlan::Sphere { radius },
        Primitive::Plane { size } => ShapePlan::Slab { size },
        Primitive::Rope { length, radius, .. } => ShapePlan::RopeCapsule { length, radius },
        Primitive::Cloth { width, height, .. } => ShapePlan::ClothBox { width, height },
        Primitive::Torus { .. } if exact => ShapePlan::PrimitiveMesh,
        Primitive::Wall { .. } if o.cutouts.len() > 0 && exact => ShapePlan::CollisionMesh,
        Primitive::Terrain { .. } => if exact {
            ShapePlan::CollisionMesh
        } else {
            ShapePlan::CollisionHull
        },
        Primitive::Floor { .. } if o.floor_outline.len() > 0 && exact => ShapePlan::CollisionMesh,
        _ => ShapePlan::PrimitiveHull,
    }
}

/// How a body is made.
#[derive(Clone, Copy, PartialEq, Eq, Structural, Debug)]
pub struct BodyPlan {
    pub dynamic: bool,
    pub density: Scalar,
    pub bounciness: Scalar,
    pub shape: ShapePlan,
}

/// How the body of an object is made. It moves only where `simulate` asks
/// for bodies that do.
pub fn create_entry(
    sim: SimState,
    o: &Object,
    simulate: bool,
    modified: bool,
    uniform: bool,
) -> (r: BodyPlan)
    ensures
        r == (BodyPlan {
            dynamic: simulate && o.dynamic,
            density: larger(o.density, Scalar { bits: LEAST_DENSITY_BITS }),
            bounciness: clamped(o.bounciness, Scalar { bits: 0 }, Scalar { bits: ONE_BITS }),
            shape: shape_of(sim, *o, modified, uniform),
        }),
{
    BodyPlan {
        dynamic: simulate && o.dynamic,
        density: o.density.at_least(Scalar { bits: LEAST_DENSITY_BITS }),
        bounciness: o.bounciness.held_between(Scalar { bits: 0 }, Scalar { bits: ONE_BITS }),
        shape: create_shape(sim, o, modified, uniform),
    }
}

/// In a simulation, a dynamic object never has an exact mesh.
pub proof fn law_moving_bodies_are_convex(sim: SimState, o: Object, modified: bool, uniform: bool)
    requires
        o.dynamic,
        sim !is Stopped,
    ensures
        !(shape_of(sim, o, modified, uniform) is ModifiedMesh),
        !(shape_of(sim, o, modified, uniform) is PrimitiveMesh),
        !(shape_of(sim, o, modified, uniform) is CollisionMesh),
{
}

/// A hit of a ray on a shape. `owner` is the id of the object whose shape it
/// is, 0 for the ground.
#[derive(Clone, Copy, PartialEq, Eq, Structural, Debug)]
pub struct RayHit {
    pub owner: u64,
    /// How far along the ray the hit lies.
    pub fraction: Scalar,
    pub point: Vec3,
}

/// The hit is on an object that counts.
pub open spec fn counts(hit: RayHit, exclude: Seq<ObjectId>) -> bool {
    hit.owner != 0 && !exclude.contains(ObjectId(hit.owner))
}

/// The nearest of the first `n` hits that count and lie before the end of
/// the ray; of two at the same distance the earlier.
pub open spec fn nearest(hits: Seq<RayHit>, exclude: Seq<ObjectId>, n: nat) -> Option<int>
    decreases n,
{
    if n == 0 {
        None
    } else {
        let before = nearest(hits, exclude, (n - 1) as nat);
        let best = match before {
            Some(k) => hits[k].fraction,
            None => Scalar { bits: ONE_BITS },
        };
        if counts(hits[n - 1], exclude) && hits[n - 1].fraction.less(best) {
            Some(n - 1)
        } else {
            before
        }
    }
}

/// No hit that counts is nearer than the nearest one.
pub proof fn law_nearest_is_nearest(hits: Seq<RayHit>, exclude: Seq<ObjectId>, n: nat)
    requires
        n <= hits.len(),
    ensures
        match nearest(hits, exclude, n) {
            Some(k) => {
                &&& 0 <= k < n
                &&& counts(hits[k], exclude)
                &&& hits[k].fraction.less(Scalar { bits: ONE_BITS })
                &&& forall|i: int|
                    0 <= i < n && counts(#[trigger] hits[i], exclude)
                        ==> !hits[i].fraction.less(hits[k].fraction)
            },
            None => forall|i: int|
                0 <= i < n && counts(#[trigger] hits[i], exclude) ==> !hits[i].fraction.less(
                    Scalar { bits: ONE_BITS },
                ),
        },
    decreases n,
{
    if n > 0 {
        law_nearest_is_nearest(hits, exclude, (n - 1) as nat);
    }
}

/// The object that a ray hits first, and where. The objects `exclude` are
/// passed through.
pub fn pick_surface(hits: &Vec<RayHit>, exclude: &Vec<ObjectId>) -> (r: Option<(ObjectId, Vec3)>)
    ensures
        r == (match nearest(hits@, exclude@, hits@.len()) {
            Some(k) => Some((ObjectId(hits@[k].owner), hits@[k].point)),
            None => None,
        }),
{
    let mut best: Option<usize> = None;
    let mut fraction = Scalar { bits: ONE_BITS };
    let mut n: usize = 0;
    while n < hits.len()
        invariant
            n <= hits@.len(),
            match nearest(hits@, exclude@, n as nat) {
                Some(k) => best == Some(k as usize) && 0 <= k < n && fraction == hits@[k].fraction,
                None => best is None && fraction == (Scalar { bits: ONE_BITS }),
            },
        decreases hits@.len() - n,
    {
        let hit = hits[n];
        if hit.owner != 0 && !contains(exclude, ObjectId(hit.owner)) && hit.fraction.is_less(
            fraction,
        ) {
            best = Some(n);
            fraction = hit.fraction;
        }
        n += 1;
    }
    match best {
        Some(k) => Some((ObjectId(hits[k].owner), hits[k].point)),
        None => None,
    }
}

/// The object that a ray hits first.
pub fn pick(hits: &Vec<RayHit>) -> (r: Option<ObjectId>)
    ensures
        r == (match nearest(hits@, seq![], hits@.len()) {
            Some(k) => Some(ObjectId(hits@[k].owner)),
            None => None,
        }),
{
    let nothing: Vec<ObjectId> = Vec::new();
    assert(nothing@ =~= seq![]);
    match pick_surface(hits, &nothing) {
        Some((id, _)) => Some(id),
        None => None,
    }
}

/// A point on the surface of an object, and the square of its distance.
#[derive(Clone, Copy, PartialEq, Eq, Structural, Debug)]
pub struct SurfacePoint {
    pub id: ObjectId,
    pub distance_squared: Scalar,
    pub point: Vec3,
}

/// The nearest of the first `n` points that are no farther than `limit`, on
/// objects that are not excluded; of two equally near the earlier.
pub open spec fn closest(
    points: Seq<SurfacePoint>,
    exclude: Seq<ObjectId>,
    limit: Scalar,
    n: nat,
) -> Option<int>
    decreases n,
{
    if n == 0 {
        None
    } else {
        let before = closest(points, exclude, limit, (n - 1) as nat);
        let d = points[n - 1].distance_squared;
        let near = d.less(limit) || d.equal(limit);
        let nearer = match before {
            Some(k) => d.less(points[k].distance_squared),
            None => true,
        };
        if !exclude.contains(points[n - 1].id) && near && nearer {
            Some(n - 1)
        } else {
            before
        }
    }
}

/// The nearest point of a surface within reach: `limit` is the square of the
/// reach.
pub fn closest_surface_point(
    points: &Vec<SurfacePoint>,
    exclude: &Vec<ObjectId>,
    limit: Scalar,
) -> (r: Option<(ObjectId, Vec3)>)
    ensures
        r == (match closest(points@, exclude@, limit, points@.len()) {
            Some(k) => Some((points@[k].id, points@[k].point)),
            None => None,
        }),
{
    let mut best: Option<usize> = None;
    let mut n: usize = 0;
    while n < points.len()
        invariant
            n <= points@.len(),
            match closest(points@, exclude@, limit, n as nat) {
                Some(k) => best == Some(k as usize) && 0 <= k < n,
                None => best is None,
            },
        decreases points@.len() - n,
    {
        let p = points[n];
        if !contains(exclude, p.id) && p.distance_squared.is_at_most(limit) {
            let nearer = match best {
                Some(k) => p.distance_squared.is_less(points[k].distance_squared),
                None => true,
            };
            if nearer {
                best = Some(n);
            }
        }
        n += 1;
    }
    match best {
        Some(k) => Some((points[k].id, points[k].point)),
        None => None,
    }
}

/// No surface point in reach is nearer than the closest one.
pub proof fn law_closest_is_closest(
    points: Seq<SurfacePoint>,
    exclude: Seq<ObjectId>,
    limit: Scalar,
    n: nat,
)
    requires
        n <= points.len(),
    ensures
        match closest(points, exclude, limit, n) {
            Some(k) => {
                &&& 0 <= k < n
                &&& !exclude.contains(points[k].id)
                &&& points[k].distance_squared.less(limit) || points[k].distance_squared.equal(limit)
                &&& forall|i: int|
                    0 <= i < n && !exclude.contains((#[trigger] points[i]).id)
                        ==> !points[i].distance_squared.less(points[k].distance_squared)
            },
            None => forall|i: int|
                0 <= i < n && !exclude.contains((#[trigger] points[i]).id)
                    ==> !points[i].distance_squared.less(limit),
        },
    decreases n,
{
    if n > 0 {
        law_closest_is_closest(points, exclude, limit, (n - 1) as nat);
        if closest(points, exclude, limit, n) == Some(n - 1) {
            let d = points[n - 1].distance_squared;
            assert forall|i: int| 0 <= i < n && !exclude.contains(
                (#[trigger] points[i]).id,
            ) implies !points[i].distance_squared.less(d) by {
                let e = points[i].distance_squared;
                match closest(points, exclude, limit, (n - 1) as nat) {
                    Some(k) => {
                        if i < n - 1 {
                            assert(!e.less(points[k].distance_squared));
                        }
                    },
                    None => {
                        if i < n - 1 {
                            assert(!e.less(limit));
                        }
                    },
                }
            }
        }
    }
}

/// What a poke at the world met first.
#[derive(Clone, Copy, PartialEq, Eq, Structural, Debug)]
pub struct PokeHit {
    /// The id of the object, 0 for the ground.
    pub owner: u64,
    /// The body can move.
    pub dynamic: bool,
}

/// The object that a poke kicks: one that can move, while a simulation
/// plays.
pub fn poke(sim: SimState, hit: Option<PokeHit>) -> (r: Option<ObjectId>)
    ensures
        r == (match hit {
            Some(h) => if sim is Playing && h.owner != 0 && h.dynamic {
                Some(ObjectId(h.owner))
            } else {
                None
            },
            None => None,
        }),
{
    if sim != SimState::Playing {
        return None;
    }
    match hit {
        Some(h) => if h.owner != 0 && h.dynamic {
            Some(ObjectId(h.owner))
        } else {
            None
        },
        None => None,
    }
}

/// Some of these owners is an object outside `ids`.
pub open spec fn meets_other(owners: Seq<u64>, ids: Seq<ObjectId>) -> bool {
    exists|i: int|
        0 <= i < owners.len() && #[trigger] owners[i] != 0 && !ids.contains(ObjectId(owners[i]))
}

fn meets(owners: &Vec<u64>, ids: &Vec<ObjectId>) -> (r: bool)
    ensures
        r == meets_other(owners@, ids@),
{
    let mut i: usize = 0;
    while i < owners.len()
        invariant
            i <= owners@.len(),
            forall|j: int|
                0 <= j < i ==> !(#[trigger] owners@[j] != 0 && !ids@.contains(
                    ObjectId(owners@[j]),
                )),
        decreases owners@.len() - i,
    {
        if owners[i] != 0 && !contains(ids, ObjectId(owners[i])) {
            assert(owners@[i as int] != 0);
            return true;
        }
        i += 1;
    }
    false
}

/// Those of the first `n` ids that have a body which meets something other
/// than the objects `ids`, each once.
pub open spec fn overlaps(
    ids: Seq<ObjectId>,
    bodies: Seq<ObjectId>,
    met: Seq<Vec<u64>>,
    n: nat,
) -> Seq<ObjectId>
    decreases n,
{
    if n == 0 {
        seq![]
    } else {
        let before = overlaps(ids, bodies, met, (n - 1) as nat);
        let id = ids[n - 1];
        if bodies.contains(id) && meets_other(met[n - 1]@, ids) && !before.contains(id) {
            before.push(id)
        } else {
            before
        }
    }
}

/// Those of the objects `ids` that overlap something else. `bodies` are the
/// objects that have a body; `met` lists, for each of `ids`, the owners of
/// the shapes that touch the box around it.
pub fn overlapping(ids: &Vec<ObjectId>, bodies: &Vec<ObjectId>, met: &Vec<Vec<u64>>) -> (r: Vec<
    ObjectId,
>)
    requires
        met@.len() == ids@.len(),
    ensures
        r@ == overlaps(ids@, bodies@, met@, ids@.len()),
{
    let mut r: Vec<ObjectId> = Vec::new();
    let mut n: usize = 0;
    while n < ids.len()
        invariant
            n <= ids@.len(),
            met@.len() == ids@.len(),
            r@ == overlaps(ids@, bodies@, met@, n as nat),
        decreases ids@.len() - n,
    {
        let id = ids[n];
        if contains(bodies, id) && meets(&met[n], ids) && !contains(&r, id) {
            r.push(id);
        }
        n += 1;
    }
    r
}

/// The selected object falls by itself: it is not locked, and its parent is
/// not selected with it.
pub open spec fn falls(objects: Seq<Object>, selected: Seq<ObjectId>, id: ObjectId) -> bool {
    match place_of(objects, id) {
        Some(i) => !objects[i].locked && (match objects[i].parent {
            Some(p) => !selected.contains(p),
            None => true,
        }),
        None => false,
    }
}

/// Those of the first `n` selected objects that fall by themselves.
pub open spec fn falling(objects: Seq<Object>, selected: Seq<ObjectId>, n: nat) -> Seq<ObjectId>
    decreases n,
{
    if n == 0 {
        seq![]
    } else {
        let before = falling(objects, selected, (n - 1) as nat);
        if falls(objects, selected, selected[n - 1]) {
            before.push(selected[n - 1])
        } else {
            before
        }
    }
}

/// The roots of the selection: the objects that drop to the floor, each with
/// everything that hangs on it. Locked objects stay.
pub fn drop_roots(scene: &Scene, selected: &Vec<ObjectId>) -> (r: Vec<ObjectId>)
    ensures
        r@ == falling(scene.objects@, selected@, selected@.len()),
{
    let mut r: Vec<ObjectId> = Vec::new();
    let mut n: usize = 0;
    while n < selected.len()
        invariant
            n <= selected@.len(),
            r@ == falling(scene.objects@, selected@, n as nat),
        decreases selected@.len() - n,
    {
        match scene.find(selected[n]) {
            Some(i) => {
                let o = &scene.objects[i];
                let own = match o.parent {
                    Some(p) => !contains(selected, p),
                    None => true,
                };
                if !o.locked && own {
                    r.push(selected[n]);
                }
            },
            None => {},
        }
        n += 1;
    }
    r
}

/// What a ray straight down met.
#[derive(Clone, Copy, PartialEq, Eq, Structural, Debug)]
pub struct DropHit {
    /// The id of the object, 0 for the ground.
    pub owner: u64,
    pub z: Scalar,
}

/// The highest of the first `n` hits on things that do not fall.
pub open spec fn highest(hits: Seq<DropHit>, moving: Seq<ObjectId>, n: nat) -> Option<Scalar>
    decreases n,
{
    if n == 0 {
        None
    } else {
        let before = highest(hits, moving, (n - 1) as nat);
        let z = hits[n - 1].z;
        if moving.contains(ObjectId(hits[n - 1].owner)) {
            before
        } else {
            match before {
                Some(b) => Some(larger(b, z)),
                None => Some(z),
            }
        }
    }
}

/// The height that holds something up: the highest hit below it, but never
/// below the grid.
pub open spec fn support_of(hits: Seq<DropHit>, moving: Seq<ObjectId>) -> Scalar {
    let zero = Scalar { bits: 0 };
    match highest(hits, moving, hits.len()) {
        Some(z) => larger(z, zero),
        None => larger(zero, zero),
    }
}

/// The height that holds something up, given what the rays below it met.
/// The objects `moving` fall with it.
pub fn support(hits: &Vec<DropHit>, moving: &Vec<ObjectId>) -> (r: Scalar)
    ensures
        r == support_of(hits@, moving@),
{
    let mut best: Option<Scalar> = None;
    let mut n: usize = 0;
    while n < hits.len()
        invariant
            n <= hits@.len(),
            best == highest(hits@, moving@, n as nat),
        decreases hits@.len() - n,
    {
        if !contains(moving, ObjectId(hits[n].owner)) {
            best = match best {
                Some(b) => Some(b.at_least(hits[n].z)),
                None => Some(hits[n].z),
            };
        }
        n += 1;
    }
    let zero = Scalar { bits: 0 };
    match best {
        Some(z) => z.at_least(zero),
        None => zero,
    }
}

proof fn lemma_highest(hits: Seq<DropHit>, moving: Seq<ObjectId>, n: nat)
    requires
        n <= hits.len(),
        forall|i: int| 0 <= i < hits.len() ==> !(#[trigger] hits[i]).z.nan(),
    ensures
        highest(hits, moving, n) matches Some(b) ==> !b.nan(),
        forall|i: int|
            0 <= i < n && !moving.contains(ObjectId((#[trigger] hits[i]).owner)) ==> highest(
                hits,
                moving,
                n,
            ) is Some && !highest(hits, moving, n)->0.less(hits[i].z),
    decreases n,
{
    if n > 0 {
        lemma_highest(hits, moving, (n - 1) as nat);
    }
}

/// What holds something up is neither below the grid nor below anything that
/// the rays met and that stays.
pub proof fn law_support_is_highest(hits: Seq<DropHit>, moving: Seq<ObjectId>, i: int)
    requires
        forall|i: int| 0 <= i < hits.len() ==> !(#[trigger] hits[i]).z.nan(),
        0 <= i < hits.len(),
        !moving.contains(ObjectId(hits[i].owner)),
    ensures
        !support_of(hits, moving).less(Scalar { bits: 0 }),
        !support_of(hits, moving).less(hits[i].z),
{
    lemma_highest(hits, moving, hits.len());
    assert(!highest(hits, moving, hits.len())->0.less(hits[i].z));
}

/// The largest of the first `n` numbers; below all numbers where there is
/// none.
pub open spec fn most(deltas: Seq<Scalar>, n: nat) -> Scalar
    decreases n,
{
    if n == 0 {
        Scalar { bits: (SIGN_BIT + INFINITY_BITS) as u32 }
    } else {
        larger(most(deltas, (n - 1) as nat), deltas[n - 1])
    }
}

/// How far an assembly moves, given how far each part of it could: by the
/// most constrained part. `None` where it has no part with a shape.
pub fn drop_by(deltas: &Vec<Scalar>) -> (r: Option<Scalar>)
    ensures
        r == (if most(deltas@, deltas@.len()).finite() {
            Some(most(deltas@, deltas@.len()))
        } else {
            None
        }),
{
    let mut delta = Scalar { bits: SIGN_BIT + INFINITY_BITS };
    let mut n: usize = 0;
    while n < deltas.len()
        invariant
            n <= deltas@.len(),
            delta == most(deltas@, n as nat),
        decreases deltas@.len() - n,
    {
        delta = delta.at_least(deltas[n]);
        n += 1;
    }
    if delta.is_finite() {
        Some(delta)
    } else {
        None
    }
}

/// The point that a ray meets: on an object, or else on the grid. `down` is
/// how far the ray falls per unit of its length, without its sign; `along`
/// is where it crosses the plane of the grid, and `on_grid` the point there.
pub fn pick_point(hit: Option<Vec3>, down: Scalar, along: Scalar, on_grid: Vec3) -> (r: Option<
    Vec3,
>)
    ensures
        r == (match hit {
            Some(p) => Some(p),
            None => if (Scalar { bits: LEVEL_BITS }).less(down) && (Scalar { bits: 0 }).less(
                along,
            ) {
                Some(on_grid)
            } else {
                None
            },
        }),
{
    if hit.is_some() {
        return hit;
    }
    let level = Scalar { bits: LEVEL_BITS };
    let start = Scalar { bits: 0 };
    if level.is_less(down) && start.is_less(along) {
        Some(on_grid)
    } else {
        None
    }
}

/// The object has a hollow that a convex hull would close: the hole of a
/// torus, the valleys of a terrain, an opening in a wall, or the bays of a
/// floor that follows an outline.
pub open spec fn is_concave(o: Object) -> bool {
    ||| o.primitive is Torus
    ||| o.primitive is Terrain
    ||| o.primitive is Wall && o.cutouts@.len() > 0
    ||| o.primitive is Floor && o.floor_outline@.len() > 0
}

/// What is hollow stays hollow: a concave object that does not move collides
/// as an exact mesh, so that rays and bodies pass through its openings. It is
/// the mesh with the openings, terrain and outline in it.
pub proof fn law_hollows_stay_open(sim: SimState, o: Object, uniform: bool)
    requires
        is_concave(o),
        o.edited_mesh is None,
        !o.dynamic || sim is Stopped,
    ensures
        ({
            let shape = shape_of(sim, o, false, uniform);
            &&& shape is CollisionMesh || (shape is PrimitiveMesh && o.primitive is Torus)
            &&& !(shape is CollisionHull) && !(shape is PrimitiveHull)
        }),
{
}

/// Where the modifier stack gives an object a mesh, that is what collides,
/// whatever the object is made from: exactly, unless it moves in a simulation.
/// An edited mesh collides as its hull.
pub proof fn law_shown_mesh_collides(sim: SimState, o: Object, uniform: bool)
    ensures
        !o.dynamic || sim is Stopped ==> shape_of(sim, o, true, uniform) is ModifiedMesh,
        o.dynamic && !(sim is Stopped) ==> shape_of(sim, o, true, uniform) is ModifiedHull,
        o.edited_mesh is Some ==> shape_of(sim, o, false, uniform) is CollisionHull,
        !(shape_of(sim, o, false, uniform) is ModifiedMesh),
        !(shape_of(sim, o, false, uniform) is ModifiedHull),
{
}

/// Balls, planes, ropes and cloths have shapes of their own, with the
/// measures of the object: a ball is one only while its scale is the same
/// along all axes. What is convex collides as its hull, moving or not.
pub proof fn law_shapes_have_the_measures_of_the_object(sim: SimState, o: Object, uniform: bool)
    requires
        o.edited_mesh is None,
    ensures
        ({
            let shape = shape_of(sim, o, false, uniform);
            &&& o.primitive is UvSphere && uniform ==> shape == (ShapePlan::Sphere {
                radius: o.primitive->UvSphere_radius,
            })
            &&& o.primitive is IcoSphere && uniform ==> shape == (ShapePlan::Sphere {
                radius: o.primitive->IcoSphere_radius,
            })
            &&& shape is Sphere ==> uniform && (o.primitive is UvSphere || o.primitive is IcoSphere)
            &&& o.primitive is Plane ==> shape == (ShapePlan::Slab {
                size: o.primitive->Plane_size,
            })
            &&& o.primitive is Rope ==> shape == (ShapePlan::RopeCapsule {
                length: o.primitive->Rope_length,
                radius: o.primitive->Rope_radius,
            })
            &&& o.primitive is Cloth ==> shape == (ShapePlan::ClothBox {
                width: o.primitive->Cloth_width,
                height: o.primitive->Cloth_height,
            })
            &&& !is_concave(o) && !(shape is Sphere) && !(shape is Slab) && !(shape is RopeCapsule)
                && !(shape is ClothBox) ==> shape is PrimitiveHull
            &&& is_concave(o) ==> shape is PrimitiveMesh || shape is CollisionMesh || shape
                is PrimitiveHull || shape is CollisionHull
        }),
{
}

/// Those that overlap are exactly the asked objects that have a body and meet
/// something outside the group, each once and in the order asked.
pub proof fn law_overlaps_are_with_others(
    ids: Seq<ObjectId>,
    bodies: Seq<ObjectId>,
    met: Seq<Vec<u64>>,
    n: nat,
)
    requires
        n <= ids.len(),
        met.len() == ids.len(),
    ensures
        overlaps(ids, bodies, met, n).no_duplicates(),
        forall|id: ObjectId| #[trigger]
            overlaps(ids, bodies, met, n).contains(id) <==> exists|k: int|
                0 <= k < n && #[trigger] ids[k] == id && bodies.contains(id) && (exists|j: int|
                    0 <= j < met[k]@.len() && #[trigger] met[k]@[j] != 0 && !ids.contains(
                        ObjectId(met[k]@[j]),
                    )),
    decreases n,
{
    if n > 0 {
        law_overlaps_are_with_others(ids, bodies, met, (n - 1) as nat);
        let before = overlaps(ids, bodies, met, (n - 1) as nat);
        let now = overlaps(ids, bodies, met, n);
        let last = ids[n - 1];
        let taken = bodies.contains(last) && meets_other(met[n - 1]@, ids);
        assert forall|id: ObjectId| #[trigger] now.contains(id) <==> exists|k: int|
            0 <= k < n && #[trigger] ids[k] == id && bodies.contains(id) && (exists|j: int|
                0 <= j < met[k]@.len() && #[trigger] met[k]@[j] != 0 && !ids.contains(
                    ObjectId(met[k]@[j]),
                )) by {
            if before.contains(id) {
                let k = choose|k: int| 0 <= k < before.len() && before[k] == id;
                assert(now[k] == id);
            }
            if now.contains(id) && !before.contains(id) {
                assert(id == last && taken);
                assert(ids[n - 1] == id);
            }
            if taken && id == last && !before.contains(id) {
                assert(now[before.len() as int] == id);
            }
        }
    }
}

/// What falls are exactly the selected objects of the scene that are neither
/// locked nor carried by a selected parent, in the order selected.
pub proof fn law_falling_objects_are_free(
    objects: Seq<Object>,
    selected: Seq<ObjectId>,
    n: nat,
    id: ObjectId,
)
    requires
        n <= selected.len(),
    ensures
        falling(objects, selected, n).contains(id) ==> selected.contains(id),
        falling(objects, selected, n).contains(id) ==> (place_of(objects, id) matches Some(i)
            && !objects[i].locked && (objects[i].parent is Some ==> !selected.contains(
            objects[i].parent->0,
        ))),
        (exists|k: int| 0 <= k < n && #[trigger] selected[k] == id) && (place_of(objects, id)
            matches Some(i) && !objects[i].locked && (objects[i].parent is Some
            ==> !selected.contains(objects[i].parent->0))) ==> falling(
            objects,
            selected,
            n,
        ).contains(id),
    decreases n,
{
    if n > 0 {
        law_falling_objects_are_free(objects, selected, (n - 1) as nat, id);
        let before = falling(objects, selected, (n - 1) as nat);
        let now = falling(objects, selected, n);
        if before.contains(id) {
            let k = choose|k: int| 0 <= k < before.len() && before[k] == id;
            assert(now[k] == id);
        }
        if now.contains(id) && !before.contains(id) {
            assert(selected[n - 1] == id);
        }
        if falls(objects, selected, selected[n - 1]) && selected[n - 1] == id {
            assert(now[before.len() as int] == id);
        }
    }
}

/// An assembly moves by the most constrained of its parts: none could move
/// less, and some part moves just so far.
pub proof fn law_assembly_moves_with_its_most_constrained_part(deltas: Seq<Scalar>, n: nat)
    requires
        0 < n <= deltas.len(),
        forall|i: int| 0 <= i < deltas.len() ==> (#[trigger] deltas[i]).finite(),
    ensures
        forall|i: int| 0 <= i < n ==> !most(deltas, n).less(#[trigger] deltas[i]),
        exists|i: int| 0 <= i < n && #[trigger] deltas[i] == most(deltas, n),
    decreases n,
{
    assert(deltas[n - 1].finite());
    if n > 1 {
        law_assembly_moves_with_its_most_constrained_part(deltas, (n - 1) as nat);
        let k = choose|i: int| 0 <= i < n - 1 && #[trigger] deltas[i] == most(deltas, (n - 1) as nat);
        assert(deltas[k].finite());
        assert forall|i: int| 0 <= i < n implies !most(deltas, n).less(#[trigger] deltas[i]) by {
            assert(deltas[i].finite());
        }
    } else {
        assert(most(deltas, 0) == (Scalar { bits: (SIGN_BIT + INFINITY_BITS) as u32 }));
        assert(most(deltas, 1) == deltas[0]);
    }
}

proof fn lemma_highest_is_met(hits: Seq<DropHit>, moving: Seq<ObjectId>, n: nat)
    requires
        n <= hits.len(),
    ensures
        highest(hits, moving, n) matches Some(z) ==> exists|i: int|
            0 <= i < n && !moving.contains(ObjectId((#[trigger] hits[i]).owner)) && hits[i].z == z,
    decreases n,
{
    if n > 0 {
        lemma_highest_is_met(hits, moving, (n - 1) as nat);
        if highest(hits, moving, n) is Some {
            let z = highest(hits, moving, n)->0;
            if highest(hits, moving, (n - 1) as nat) == Some(z) {
                let i = choose|i: int|
                    0 <= i < n - 1 && !moving.contains(ObjectId((#[trigger] hits[i]).owner))
                        && hits[i].z == z;
                assert(hits[i].z == z);
            } else {
                assert(hits[n - 1].z == z);
            }
        }
    }
}

/// What falls comes to rest on the ground or on something it meets, and
/// never on what falls with it.
pub proof fn law_support_is_the_ground_or_met(hits: Seq<DropHit>, moving: Seq<ObjectId>)
    ensures
        support_of(hits, moving).bits == 0 || exists|i: int|
            0 <= i < hits.len() && !moving.contains(ObjectId((#[trigger] hits[i]).owner))
                && hits[i].z == support_of(hits, moving),
{
    lemma_highest_is_met(hits, moving, hits.len());
}

} // verus!
