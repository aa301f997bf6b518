//! How a simulation builds ropes and cloths: which nodes they have, which of
//! them are joined, and where they are pinned.

use vstd::prelude::*;
use crate::scalar::{clamped, larger, Scalar, ONE_BITS};
use crate::scene::{exists_in, ClothAnchor, Object, ObjectId, Primitive, Scene};
use crate::selection::contains;

verus! {

/// A rope has at least this many segments in a simulation.
pub const MIN_ROPE_SEGMENTS: u32 = 2;

/// A rope has at most this many segments in a simulation.
pub const MAX_ROPE_SEGMENTS: u32 = 64;

/// A side of a cloth has at most this many segments in a simulation.
pub const MAX_CLOTH_SEGMENTS: u32 = 24;

/// Five hundredths: the least length, in meters, of a side of a soft body.
pub const LEAST_LENGTH_BITS: u32 = 0x3d4c_cccd;

/// Five thousandths: the least radius of a rope, in meters.
pub const LEAST_ROPE_RADIUS_BITS: u32 = 0x3ba3_d70a;

/// Ninety-eight hundredths: from this stiffness on, joints are rigid.
pub const RIGID_STIFFNESS_BITS: u32 = 0x3f7a_e148;

/// Eight hundredths: up to this stiffness, cloth does not resist bending.
pub const LIMP_STIFFNESS_BITS: u32 = 0x3da3_d70a;

/// Why two nodes of a cloth are joined.
#[derive(Clone, Copy, PartialEq, Eq, Structural, Debug)]
pub enum LinkKind {
    /// Neighbours along an edge of a cell.
    Edge,
    /// Neighbours across a cell.
    Shear,
    /// Two apart in a row or a column.
    Bend,
}

/// A joint between two nodes.
#[derive(Clone, Copy, PartialEq, Eq, Structural, Debug)]
pub struct Link {
    pub a: usize,
    pub b: usize,
    pub kind: LinkKind,
}

/// What holds the other end of a pin.
#[derive(Clone, Copy, PartialEq, Eq, Structural, Debug)]
pub enum PinBody {
    /// The body of the object itself.
    Target,
    /// A fixed body made for the pin, the object having none.
    Anchor,
}

/// A node that is held at a point of an object.
#[derive(Clone, Copy, PartialEq, Eq, Structural, Debug)]
pub struct Pin {
    pub node: usize,
    pub target: ObjectId,
    pub body: PinBody,
}

/// The simulated form of a rope.
#[derive(Debug)]
pub struct RopePlan {
    pub length: Scalar,
    pub radius: Scalar,
    pub node_count: usize,
    pub links: Vec<(usize, usize)>,
    pub pins: Vec<Pin>,
}

/// The simulated form of a cloth. Nodes are numbered row by row.
#[derive(Debug)]
pub struct ClothPlan {
    pub width: Scalar,
    pub height: Scalar,
    pub stiffness: Scalar,
    pub columns: usize,
    pub rows: usize,
    /// Shapes of one group never collide with each other.
    pub group: i32,
    pub rigid: bool,
    /// Edges that collide as capsules.
    pub edges: Vec<(usize, usize)>,
    pub links: Vec<Link>,
    pub pins: Vec<Pin>,
}

/// `n` held between two bounds.
pub open spec fn held(n: u32, low: u32, high: u32) -> u32 {
    if n < low {
        low
    } else if n > high {
        high
    } else {
        n
    }
}

/// `n` held between two bounds.
pub fn hold(n: u32, low: u32, high: u32) -> (r: u32)
    ensures
        r == held(n, low, high),
{
    if n < low {
        low
    } else if n > high {
        high
    } else {
        n
    }
}

/// The number of the node in column `u` and row `v` of a grid with `columns`
/// columns.
pub open spec fn node(columns: int, u: int, v: int) -> int {
    u + v * columns
}

fn node_index(columns: usize, u: usize, v: usize) -> (r: usize)
    requires
        columns <= MAX_CLOTH_SEGMENTS + 1,
        u < columns,
        v <= MAX_CLOTH_SEGMENTS,
    ensures
        r == node(columns as int, u as int, v as int),
{
    assert(v * columns <= 24 * 25) by (nonlinear_arith)
        requires
            columns <= 25,
            v <= 24,
    ;
    u + v * columns
}

/// A joint of nodes that the grid has.
pub open spec fn link(a: int, b: int, kind: LinkKind) -> Link {
    Link { a: a as usize, b: b as usize, kind }
}

/// Row `v` of a family of joints: each of the first `n` nodes of the row
/// with the node `du` columns and `dv` rows further on.
pub open spec fn row_links(columns: int, v: int, du: int, dv: int, kind: LinkKind, n: nat) -> Seq<
    Link,
>
    decreases n,
{
    if n == 0 {
        seq![]
    } else {
        row_links(columns, v, du, dv, kind, (n - 1) as nat).push(
            link(node(columns, n - 1, v), node(columns, n - 1 + du, v + dv), kind),
        )
    }
}

/// A family of joints: its first `rows` rows, of `width` joints each.
pub open spec fn straight_links(
    columns: int,
    width: nat,
    du: int,
    dv: int,
    kind: LinkKind,
    rows: nat,
) -> Seq<Link>
    decreases rows,
{
    if rows == 0 {
        seq![]
    } else {
        straight_links(columns, width, du, dv, kind, (rows - 1) as nat) + row_links(
            columns,
            rows - 1,
            du,
            dv,
            kind,
            width,
        )
    }
}

/// The two diagonals of each of the first `n` cells of row `v`.
pub open spec fn row_diagonals(columns: int, v: int, n: nat) -> Seq<Link>
    decreases n,
{
    if n == 0 {
        seq![]
    } else {
        row_diagonals(columns, v, (n - 1) as nat).push(
            link(node(columns, n - 1, v), node(columns, n as int, v + 1), LinkKind::Shear),
        ).push(link(node(columns, n as int, v), node(columns, n - 1, v + 1), LinkKind::Shear))
    }
}

/// The diagonals of the cells in the first `rows` rows.
pub open spec fn diagonals(columns: int, width: nat, rows: nat) -> Seq<Link>
    decreases rows,
{
    if rows == 0 {
        seq![]
    } else {
        diagonals(columns, width, (rows - 1) as nat) + row_diagonals(columns, rows - 1, width)
    }
}

/// The structural joints of a cloth of `su` by `sv` segments: those along
/// the rows, then those along the columns.
pub open spec fn structural_links(su: nat, sv: nat) -> Seq<Link> {
    straight_links(su as int + 1, su, 1, 0, LinkKind::Edge, sv + 1) + straight_links(
        su as int + 1,
        su + 1,
        0,
        1,
        LinkKind::Edge,
        sv,
    )
}

/// One less, but not below zero.
pub open spec fn one_less(n: nat) -> nat {
    if n == 0 {
        0
    } else {
        (n - 1) as nat
    }
}

/// The joints that resist bending: along the rows, then along the columns.
pub open spec fn bend_links(su: nat, sv: nat) -> Seq<Link> {
    straight_links(su as int + 1, one_less(su), 2, 0, LinkKind::Bend, sv + 1) + straight_links(
        su as int + 1,
        su + 1,
        0,
        2,
        LinkKind::Bend,
        one_less(sv),
    )
}

/// All joints of a cloth. Limp cloth has none that resist bending.
pub open spec fn cloth_links(su: nat, sv: nat, bends: bool) -> Seq<Link> {
    structural_links(su, sv) + diagonals(su as int + 1, su, sv) + if bends {
        bend_links(su, sv)
    } else {
        seq![]
    }
}

/// The node pairs of the first `n` joints.
pub open spec fn link_ends(links: Seq<Link>, n: nat) -> Seq<(usize, usize)>
    decreases n,
{
    if n == 0 {
        seq![]
    } else {
        link_ends(links, (n - 1) as nat).push((links[n - 1].a, links[n - 1].b))
    }
}

/// The pin of a node to `target`: on its body, or on one of its own.
pub open spec fn pin_to(node: int, target: ObjectId, bodies: Seq<ObjectId>) -> Pin {
    Pin {
        node: node as usize,
        target,
        body: if bodies.contains(target) {
            PinBody::Target
        } else {
            PinBody::Anchor
        },
    }
}

/// The smaller of two whole numbers.
pub open spec fn least(a: int, b: int) -> int {
    if a < b {
        a
    } else {
        b
    }
}

/// The pins of the first `n` anchors of a cloth: those whose object is in
/// the scene, each on the node nearest to the one it names.
pub open spec fn cloth_pins(
    objects: Seq<Object>,
    bodies: Seq<ObjectId>,
    anchors: Seq<ClothAnchor>,
    su: nat,
    sv: nat,
    n: nat,
) -> Seq<Pin>
    decreases n,
{
    if n == 0 {
        seq![]
    } else {
        let before = cloth_pins(objects, bodies, anchors, su, sv, (n - 1) as nat);
        let anchor = anchors[n - 1];
        match anchor.object {
            Some(target) => if exists_in(objects, target) {
                let u = least(anchor.u as int, su as int);
                let v = least(anchor.v as int, sv as int);
                before.push(pin_to(node(su as int + 1, u, v), target, bodies))
            } else {
                before
            },
            None => before,
        }
    }
}

/// The collision group of a cloth. It is negative, so that shapes of the
/// group do not collide with each other.
pub open spec fn cloth_group(id: ObjectId) -> int {
    let low = id.0 as i32;
    if low == i32::MAX {
        -(i32::MAX as int)
    } else if low + 1 < 1 {
        -1
    } else {
        -(low + 1)
    }
}

fn group_of(id: ObjectId) -> (r: i32)
    ensures
        r == cloth_group(id),
        r < 0,
{
    let low: i32 = #[verifier::truncate] (id.0 as i32);
    if low == i32::MAX {
        -i32::MAX
    } else if low < 0 {
        -1
    } else {
        -(low + 1)
    }
}

fn pin(node: usize, target: ObjectId, bodies: &Vec<ObjectId>) -> (r: Pin)
    ensures
        r == pin_to(node as int, target, bodies@),
{
    let body = if contains(bodies, target) {
        PinBody::Target
    } else {
        PinBody::Anchor
    };
    Pin { node, target, body }
}

fn push_row(
    links: &mut Vec<Link>,
    columns: usize,
    v: usize,
    du: usize,
    dv: usize,
    kind: LinkKind,
    width: usize,
)
    requires
        columns <= MAX_CLOTH_SEGMENTS + 1,
        width + du <= columns,
        v + dv <= MAX_CLOTH_SEGMENTS,
    ensures
        final(links)@ == old(links)@ + row_links(
            columns as int,
            v as int,
            du as int,
            dv as int,
            kind,
            width as nat,
        ),
{
    let mut u: usize = 0;
    assert(links@ =~= old(links)@ + row_links(columns as int, v as int, du as int, dv as int, kind, 0));
    while u < width
        invariant
            u <= width,
            columns <= MAX_CLOTH_SEGMENTS + 1,
            width + du <= columns,
            v + dv <= MAX_CLOTH_SEGMENTS,
            links@ == old(links)@ + row_links(
                columns as int,
                v as int,
                du as int,
                dv as int,
                kind,
                u as nat,
            ),
        decreases width - u,
    {
        let a = node_index(columns, u, v);
        let b = node_index(columns, u + du, v + dv);
        links.push(Link { a, b, kind });
        u += 1;
        assert(links@ =~= old(links)@ + row_links(
            columns as int,
            v as int,
            du as int,
            dv as int,
            kind,
            u as nat,
        ));
    }
}

fn push_straight(
    links: &mut Vec<Link>,
    columns: usize,
    width: usize,
    du: usize,
    dv: usize,
    kind: LinkKind,
    rows: usize,
)
    requires
        columns <= MAX_CLOTH_SEGMENTS + 1,
        width + du <= columns,
        rows + dv <= MAX_CLOTH_SEGMENTS + 1,
    ensures
        final(links)@ == old(links)@ + straight_links(
            columns as int,
            width as nat,
            du as int,
            dv as int,
            kind,
            rows as nat,
        ),
{
    let mut v: usize = 0;
    assert(links@ =~= old(links)@ + straight_links(
        columns as int,
        width as nat,
        du as int,
        dv as int,
        kind,
        0,
    ));
    while v < rows
        invariant
            v <= rows,
            columns <= MAX_CLOTH_SEGMENTS + 1,
            width + du <= columns,
            rows + dv <= MAX_CLOTH_SEGMENTS + 1,
            links@ == old(links)@ + straight_links(
                columns as int,
                width as nat,
                du as int,
                dv as int,
                kind,
                v as nat,
            ),
        decreases rows - v,
    {
        push_row(links, columns, v, du, dv, kind, width);
        v += 1;
        assert(links@ =~= old(links)@ + straight_links(
            columns as int,
            width as nat,
            du as int,
            dv as int,
            kind,
            v as nat,
        ));
    }
}

fn push_diagonals(links: &mut Vec<Link>, columns: usize, width: usize, rows: usize)
    requires
        columns <= MAX_CLOTH_SEGMENTS + 1,
        width + 1 <= columns,
        rows <= MAX_CLOTH_SEGMENTS,
    ensures
        final(links)@ == old(links)@ + diagonals(columns as int, width as nat, rows as nat),
{
    let mut v: usize = 0;
    assert(links@ =~= old(links)@ + diagonals(columns as int, width as nat, 0));
    while v < rows
        invariant
            v <= rows,
            columns <= MAX_CLOTH_SEGMENTS + 1,
            width + 1 <= columns,
            rows <= MAX_CLOTH_SEGMENTS,
            links@ == old(links)@ + diagonals(columns as int, width as nat, v as nat),
        decreases rows - v,
    {
        let ghost before = links@;
        let mut u: usize = 0;
        assert(links@ =~= before + row_diagonals(columns as int, v as int, 0));
        while u < width
            invariant
                u <= width,
                v < rows,
                columns <= MAX_CLOTH_SEGMENTS + 1,
                width + 1 <= columns,
                rows <= MAX_CLOTH_SEGMENTS,
                links@ == before + row_diagonals(columns as int, v as int, u as nat),
            decreases width - u,
        {
            let a = node_index(columns, u, v);
            let b = node_index(columns, u + 1, v + 1);
            links.push(Link { a, b, kind: LinkKind::Shear });
            let c = node_index(columns, u + 1, v);
            let d = node_index(columns, u, v + 1);
            links.push(Link { a: c, b: d, kind: LinkKind::Shear });
            u += 1;
            assert(links@ =~= before + row_diagonals(columns as int, v as int, u as nat));
        }
        v += 1;
        assert(links@ =~= old(links)@ + diagonals(columns as int, width as nat, v as nat));
    }
}

fn ends_of(links: &Vec<Link>) -> (r: Vec<(usize, usize)>)
    ensures
        r@ == link_ends(links@, links@.len()),
{
    let mut r: Vec<(usize, usize)> = Vec::new();
    let mut i: usize = 0;
    while i < links.len()
        invariant
            i <= links@.len(),
            r@ == link_ends(links@, i as nat),
        decreases links@.len() - i,
    {
        r.push((links[i].a, links[i].b));
        i += 1;
    }
    r
}

fn pins_of_cloth(scene: &Scene, anchors: &Vec<ClothAnchor>, bodies: &Vec<ObjectId>, su: u32, sv: u32) -> (r:
    Vec<Pin>)
    requires
        su <= MAX_CLOTH_SEGMENTS,
        sv <= MAX_CLOTH_SEGMENTS,
    ensures
        r@ == cloth_pins(
            scene.objects@,
            bodies@,
            anchors@,
            su as nat,
            sv as nat,
            anchors@.len(),
        ),
{
    let mut r: Vec<Pin> = Vec::new();
    let mut i: usize = 0;
    while i < anchors.len()
        invariant
            i <= anchors@.len(),
            su <= MAX_CLOTH_SEGMENTS,
            sv <= MAX_CLOTH_SEGMENTS,
            r@ == cloth_pins(scene.objects@, bodies@, anchors@, su as nat, sv as nat, i as nat),
        decreases anchors@.len() - i,
    {
        let anchor = anchors[i];
        match anchor.object {
            Some(target) => {
                if scene.contains(target) {
                    let u: u32 = if anchor.u < su {
                        anchor.u
                    } else {
                        su
                    };
                    let v: u32 = if anchor.v < sv {
                        anchor.v
                    } else {
                        sv
                    };
                    let at = node_index(su as usize + 1, u as usize, v as usize);
                    r.push(pin(at, target, bodies));
                }
            },
            None => {},
        }
        i += 1;
    }
    r
}

/// The plan is that of a cloth with these parameters.
pub open spec fn is_cloth_plan(
    plan: ClothPlan,
    objects: Seq<Object>,
    object: Object,
    bodies: Seq<ObjectId>,
) -> bool {
    match object.primitive {
        Primitive::Cloth { width, height, segments_u, segments_v, stiffness } => {
            let su = held(segments_u, 1, MAX_CLOTH_SEGMENTS) as nat;
            let sv = held(segments_v, 1, MAX_CLOTH_SEGMENTS) as nat;
            let stiff = clamped(stiffness, Scalar { bits: 0 }, Scalar { bits: ONE_BITS });
            let structural = structural_links(su, sv);
            &&& plan.width == larger(width, Scalar { bits: LEAST_LENGTH_BITS })
            &&& plan.height == larger(height, Scalar { bits: LEAST_LENGTH_BITS })
            &&& plan.stiffness == stiff
            &&& plan.columns == su + 1
            &&& plan.rows == sv + 1
            &&& plan.group == cloth_group(object.id)
            &&& plan.rigid == ((Scalar { bits: RIGID_STIFFNESS_BITS }).less(stiff) || (Scalar { bits: RIGID_STIFFNESS_BITS }).equal(stiff))
            &&& plan.edges@ == link_ends(structural, structural.len())
            &&& plan.links@ == cloth_links(su, sv, (Scalar { bits: LIMP_STIFFNESS_BITS }).less(stiff))
            &&& plan.pins@ == cloth_pins(
                objects,
                bodies,
                object.cloth_anchors@,
                su,
                sv,
                object.cloth_anchors@.len(),
            )
        },
        _ => false,
    }
}

/// The simulated form of the cloth `object`, in a world where the objects
/// `bodies` have bodies of their own. `None` for anything but a cloth.
pub fn build_cloth(scene: &Scene, object: &Object, bodies: &Vec<ObjectId>) -> (r: Option<ClothPlan>)
    ensures
        r is Some == object.primitive.cloth(),
        r matches Some(plan) ==> is_cloth_plan(plan, scene.objects@, *object, bodies@),
{
    match object.primitive {
        Primitive::Cloth { width, height, segments_u, segments_v, stiffness } => {
            let su = hold(segments_u, 1, MAX_CLOTH_SEGMENTS);
            let sv = hold(segments_v, 1, MAX_CLOTH_SEGMENTS);
            let stiff = stiffness.held_between(Scalar { bits: 0 }, Scalar { bits: ONE_BITS });
            let columns: usize = su as usize + 1;
            let rows: usize = sv as usize + 1;
            let mut links: Vec<Link> = Vec::new();
            push_straight(&mut links, columns, su as usize, 1, 0, LinkKind::Edge, rows);
            push_straight(&mut links, columns, columns, 0, 1, LinkKind::Edge, sv as usize);
            assert(links@ =~= structural_links(su as nat, sv as nat));
            let edges = ends_of(&links);
            push_diagonals(&mut links, columns, su as usize, sv as usize);
            let bends = (Scalar { bits: LIMP_STIFFNESS_BITS }).is_less(stiff);
            if bends {
                push_straight(&mut links, columns, su as usize - 1, 2, 0, LinkKind::Bend, rows);
                push_straight(&mut links, columns, columns, 0, 2, LinkKind::Bend, sv as usize - 1);
            }
            assert(links@ =~= cloth_links(su as nat, sv as nat, bends));
            let pins = pins_of_cloth(scene, &object.cloth_anchors, bodies, su, sv);
            Some(
                ClothPlan {
                    width: width.at_least(Scalar { bits: LEAST_LENGTH_BITS }),
                    height: height.at_least(Scalar { bits: LEAST_LENGTH_BITS }),
                    stiffness: stiff,
                    columns,
                    rows,
                    group: group_of(object.id),
                    rigid: (Scalar { bits: RIGID_STIFFNESS_BITS }).is_at_most(stiff),
                    edges,
                    links,
                    pins,
                },
            )
        },
        _ => None,
    }
}

/// The pairs of neighbouring nodes among the first `n + 1` of a rope.
pub open spec fn chain(n: nat) -> Seq<(usize, usize)> {
    Seq::new(n, |i: int| (i as usize, (i + 1) as usize))
}

/// The pins of a rope with `segments` segments: of its start, then of its
/// end, where they are attached.
pub open spec fn rope_pins(object: Object, bodies: Seq<ObjectId>, segments: nat) -> Seq<Pin> {
    let start = match object.rope_start.object {
        Some(target) => seq![pin_to(0, target, bodies)],
        None => seq![],
    };
    let end = match object.rope_end.object {
        Some(target) => seq![pin_to(segments as int, target, bodies)],
        None => seq![],
    };
    start + end
}

/// The plan is that of the rope `object`.
pub open spec fn is_rope_plan(plan: RopePlan, object: Object, bodies: Seq<ObjectId>) -> bool {
    match object.primitive {
        Primitive::Rope { length, radius, segments } => {
            let n = held(segments, MIN_ROPE_SEGMENTS, MAX_ROPE_SEGMENTS) as nat;
            &&& plan.length == larger(length, Scalar { bits: LEAST_LENGTH_BITS })
            &&& plan.radius == larger(radius, Scalar { bits: LEAST_ROPE_RADIUS_BITS })
            &&& plan.node_count == n + 1
            &&& plan.links@ == chain(n)
            &&& plan.pins@ == rope_pins(object, bodies, n)
        },
        _ => false,
    }
}

/// The simulated form of the rope `object`, in a world where the objects
/// `bodies` have bodies of their own. `None` for anything but a rope.
pub fn build_rope(object: &Object, bodies: &Vec<ObjectId>) -> (r: Option<RopePlan>)
    ensures
        r is Some == object.primitive.rope(),
        r matches Some(plan) ==> is_rope_plan(plan, *object, bodies@),
{
    match object.primitive {
        Primitive::Rope { length, radius, segments } => {
            let held_segments = hold(segments, MIN_ROPE_SEGMENTS, MAX_ROPE_SEGMENTS);
            let n: usize = held_segments as usize;
            let mut links: Vec<(usize, usize)> = Vec::new();
            let mut i: usize = 0;
            while i < n
                invariant
                    i <= n,
                    n <= MAX_ROPE_SEGMENTS,
                    links@ == chain(i as nat),
                decreases n - i,
            {
                links.push((i, i + 1));
                i += 1;
                assert(links@ =~= chain(i as nat));
            }
            let mut pins: Vec<Pin> = Vec::new();
            match object.rope_start.object {
                Some(target) => pins.push(pin(0, target, bodies)),
                None => {},
            }
            match object.rope_end.object {
                Some(target) => pins.push(pin(n, target, bodies)),
                None => {},
            }
            assert(pins@ =~= rope_pins(*object, bodies@, n as nat));
            Some(
                RopePlan {
                    length: length.at_least(Scalar { bits: LEAST_LENGTH_BITS }),
                    radius: radius.at_least(Scalar { bits: LEAST_ROPE_RADIUS_BITS }),
                    node_count: n + 1,
                    links,
                    pins,
                },
            )
        },
        _ => None,
    }
}

/// Both ends of a joint are nodes of a grid of `nodes` nodes, in order.
pub open spec fn joins(l: Link, nodes: int) -> bool {
    l.a < l.b < nodes
}

proof fn lemma_node_bounds(columns: int, rows: int, u: int, v: int)
    requires
        0 <= u < columns <= MAX_CLOTH_SEGMENTS + 1,
        0 <= v < rows <= MAX_CLOTH_SEGMENTS + 1,
    ensures
        0 <= node(columns, u, v) < columns * rows,
        columns * rows <= 625,
{
    assert(v * columns + columns <= rows * columns) by (nonlinear_arith)
        requires
            0 <= v < rows,
            0 < columns,
    ;
    assert(0 <= v * columns) by (nonlinear_arith)
        requires
            0 <= v,
            0 < columns,
    ;
    assert(columns * rows <= 625) by (nonlinear_arith)
        requires
            0 < columns <= 25,
            0 < rows <= 25,
    ;
    assert(rows * columns == columns * rows) by (nonlinear_arith);
}

proof fn lemma_row_joins(columns: int, rows: int, v: int, du: int, dv: int, kind: LinkKind, n: nat)
    requires
        1 <= columns <= MAX_CLOTH_SEGMENTS + 1,
        1 <= rows <= MAX_CLOTH_SEGMENTS + 1,
        0 <= du,
        0 <= dv,
        du + dv >= 1,
        n + du <= columns,
        0 <= v,
        v + dv < rows,
    ensures
        row_links(columns, v, du, dv, kind, n).len() == n,
        forall|i: int|
            0 <= i < n ==> joins(
                #[trigger] row_links(columns, v, du, dv, kind, n)[i],
                columns * rows,
            ),
    decreases n,
{
    if n > 0 {
        lemma_row_joins(columns, rows, v, du, dv, kind, (n - 1) as nat);
        lemma_node_bounds(columns, rows, n - 1, v);
        lemma_node_bounds(columns, rows, n - 1 + du, v + dv);
        assert((v + dv) * columns >= v * columns + dv) by (nonlinear_arith)
            requires
                0 <= v,
                0 <= dv,
                1 <= columns,
        ;
    }
}

proof fn lemma_straight_joins(
    columns: int,
    all_rows: int,
    width: nat,
    du: int,
    dv: int,
    kind: LinkKind,
    rows: nat,
)
    requires
        1 <= columns <= MAX_CLOTH_SEGMENTS + 1,
        1 <= all_rows <= MAX_CLOTH_SEGMENTS + 1,
        0 <= du,
        0 <= dv,
        du + dv >= 1,
        width + du <= columns,
        rows + dv <= all_rows,
    ensures
        straight_links(columns, width, du, dv, kind, rows).len() == width * rows,
        forall|i: int|
            0 <= i < width * rows ==> joins(
                #[trigger] straight_links(columns, width, du, dv, kind, rows)[i],
                columns * all_rows,
            ),
    decreases rows,
{
    if rows > 0 {
        lemma_straight_joins(columns, all_rows, width, du, dv, kind, (rows - 1) as nat);
        lemma_row_joins(columns, all_rows, rows - 1, du, dv, kind, width);
        assert(width * rows == width * (rows - 1) + width) by (nonlinear_arith);
    } else {
        assert(width * rows == 0) by (nonlinear_arith)
            requires
                rows == 0,
        ;
    }
}

proof fn lemma_row_diagonals_join(columns: int, rows: int, v: int, n: nat)
    requires
        2 <= columns <= MAX_CLOTH_SEGMENTS + 1,
        1 <= rows <= MAX_CLOTH_SEGMENTS + 1,
        n + 1 <= columns,
        0 <= v,
        v + 1 < rows,
    ensures
        row_diagonals(columns, v, n).len() == 2 * n,
        forall|i: int|
            0 <= i < 2 * n ==> joins(#[trigger] row_diagonals(columns, v, n)[i], columns * rows),
    decreases n,
{
    if n > 0 {
        lemma_row_diagonals_join(columns, rows, v, (n - 1) as nat);
        lemma_node_bounds(columns, rows, n - 1, v);
        lemma_node_bounds(columns, rows, n as int, v);
        lemma_node_bounds(columns, rows, n - 1, v + 1);
        lemma_node_bounds(columns, rows, n as int, v + 1);
        assert((v + 1) * columns == v * columns + columns) by (nonlinear_arith);
    }
}

proof fn lemma_diagonals_join(columns: int, all_rows: int, width: nat, rows: nat)
    requires
        2 <= columns <= MAX_CLOTH_SEGMENTS + 1,
        1 <= all_rows <= MAX_CLOTH_SEGMENTS + 1,
        width + 1 <= columns,
        rows + 1 <= all_rows,
    ensures
        diagonals(columns, width, rows).len() == 2 * width * rows,
        forall|i: int|
            0 <= i < 2 * width * rows ==> joins(
                #[trigger] diagonals(columns, width, rows)[i],
                columns * all_rows,
            ),
    decreases rows,
{
    if rows > 0 {
        lemma_diagonals_join(columns, all_rows, width, (rows - 1) as nat);
        lemma_row_diagonals_join(columns, all_rows, rows - 1, width);
        assert(2 * width * rows == 2 * width * (rows - 1) + 2 * width) by (nonlinear_arith);
    } else {
        assert(2 * width * rows == 0) by (nonlinear_arith)
            requires
                rows == 0,
        ;
    }
}

/// Every joint of a cloth joins two different nodes of its grid.
pub proof fn law_cloth_links_join_grid_nodes(su: nat, sv: nat, bends: bool, i: int)
    requires
        1 <= su <= MAX_CLOTH_SEGMENTS,
        1 <= sv <= MAX_CLOTH_SEGMENTS,
        0 <= i < cloth_links(su, sv, bends).len(),
    ensures
        joins(cloth_links(su, sv, bends)[i], ((su + 1) * (sv + 1)) as int),
{
    let columns = su as int + 1;
    let rows = sv as int + 1;
    lemma_straight_joins(columns, rows, su, 1, 0, LinkKind::Edge, sv + 1);
    lemma_straight_joins(columns, rows, su + 1, 0, 1, LinkKind::Edge, sv);
    lemma_diagonals_join(columns, rows, su, sv);
    lemma_straight_joins(columns, rows, one_less(su), 2, 0, LinkKind::Bend, sv + 1);
    lemma_straight_joins(columns, rows, su + 1, 0, 2, LinkKind::Bend, one_less(sv));
    let along = straight_links(columns, su, 1, 0, LinkKind::Edge, sv + 1);
    let down = straight_links(columns, su + 1, 0, 1, LinkKind::Edge, sv);
    let across = diagonals(columns, su, sv);
    let bend_along = straight_links(columns, one_less(su), 2, 0, LinkKind::Bend, sv + 1);
    let bend_down = straight_links(columns, su + 1, 0, 2, LinkKind::Bend, one_less(sv));
    let all = cloth_links(su, sv, bends);
    let at1 = along.len();
    let at2 = at1 + down.len();
    let at3 = at2 + across.len();
    let at4 = at3 + bend_along.len();
    if i < at1 {
        assert(all[i] == along[i]);
    } else if i < at2 {
        assert(all[i] == down[i - at1]);
    } else if i < at3 {
        assert(all[i] == across[i - at2]);
    } else if i < at4 {
        assert(all[i] == bend_along[i - at3]);
    } else {
        assert(all[i] == bend_down[i - at4]);
    }
}

/// A cloth has one joint for each edge of a cell and two for each cell, and
/// those that resist bending.
pub proof fn law_cloth_link_count(su: nat, sv: nat)
    requires
        1 <= su <= MAX_CLOTH_SEGMENTS,
        1 <= sv <= MAX_CLOTH_SEGMENTS,
    ensures
        structural_links(su, sv).len() == su * (sv + 1) + (su + 1) * sv,
        cloth_links(su, sv, false).len() == su * (sv + 1) + (su + 1) * sv + 2 * su * sv,
        cloth_links(su, sv, true).len() == su * (sv + 1) + (su + 1) * sv + 2 * su * sv + (su - 1)
            * (sv + 1) + (su + 1) * (sv - 1),
{
    let columns = su as int + 1;
    let rows = sv as int + 1;
    lemma_straight_joins(columns, rows, su, 1, 0, LinkKind::Edge, sv + 1);
    lemma_straight_joins(columns, rows, su + 1, 0, 1, LinkKind::Edge, sv);
    lemma_diagonals_join(columns, rows, su, sv);
    lemma_straight_joins(columns, rows, one_less(su), 2, 0, LinkKind::Bend, sv + 1);
    lemma_straight_joins(columns, rows, su + 1, 0, 2, LinkKind::Bend, one_less(sv));
}

/// Every pin of a cloth holds a node of its grid, and is pinned to an object
/// of the scene.
pub proof fn law_cloth_pins_hold_grid_nodes(
    objects: Seq<Object>,
    bodies: Seq<ObjectId>,
    anchors: Seq<ClothAnchor>,
    su: nat,
    sv: nat,
    n: nat,
    i: int,
)
    requires
        1 <= su <= MAX_CLOTH_SEGMENTS,
        1 <= sv <= MAX_CLOTH_SEGMENTS,
        n <= anchors.len(),
        0 <= i < cloth_pins(objects, bodies, anchors, su, sv, n).len(),
    ensures
        cloth_pins(objects, bodies, anchors, su, sv, n)[i].node < (su + 1) * (sv + 1),
        exists_in(objects, cloth_pins(objects, bodies, anchors, su, sv, n)[i].target),
    decreases n,
{
    if n > 0 {
        let before = cloth_pins(objects, bodies, anchors, su, sv, (n - 1) as nat);
        if i < before.len() {
            law_cloth_pins_hold_grid_nodes(objects, bodies, anchors, su, sv, (n - 1) as nat, i);
        } else {
            let anchor = anchors[n - 1];
            let u = least(anchor.u as int, su as int);
            let v = least(anchor.v as int, sv as int);
            lemma_node_bounds(su as int + 1, sv as int + 1, u, v);
        }
    }
}

proof fn lemma_row_link(columns: int, v: int, du: int, dv: int, kind: LinkKind, n: nat, u: int)
    requires
        0 <= u < n,
    ensures
        row_links(columns, v, du, dv, kind, n).len() == n,
        row_links(columns, v, du, dv, kind, n)[u] == link(
            node(columns, u, v),
            node(columns, u + du, v + dv),
            kind,
        ),
    decreases n,
{
    if n > 1 {
        lemma_row_link(
            columns,
            v,
            du,
            dv,
            kind,
            (n - 1) as nat,
            if u < n - 1 {
                u
            } else {
                0
            },
        );
    } else {
        assert(row_links(columns, v, du, dv, kind, 0).len() == 0);
    }
}

proof fn lemma_straight_link(
    columns: int,
    width: nat,
    du: int,
    dv: int,
    kind: LinkKind,
    rows: nat,
    u: int,
    v: int,
)
    requires
        0 <= u < width,
        0 <= v < rows,
    ensures
        straight_links(columns, width, du, dv, kind, rows).contains(
            link(node(columns, u, v), node(columns, u + du, v + dv), kind),
        ),
    decreases rows,
{
    let before = straight_links(columns, width, du, dv, kind, (rows - 1) as nat);
    let row = row_links(columns, rows - 1, du, dv, kind, width);
    let all = straight_links(columns, width, du, dv, kind, rows);
    let l = link(node(columns, u, v), node(columns, u + du, v + dv), kind);
    if v < rows - 1 {
        lemma_straight_link(columns, width, du, dv, kind, (rows - 1) as nat, u, v);
        let k = choose|k: int| 0 <= k < before.len() && before[k] == l;
        assert(all[k] == l);
    } else {
        lemma_row_link(columns, v, du, dv, kind, width, u);
        assert(all[before.len() + u] == row[u]);
    }
}

proof fn lemma_row_diagonal(columns: int, v: int, n: nat, u: int)
    requires
        0 <= u < n,
    ensures
        row_diagonals(columns, v, n).contains(
            link(node(columns, u, v), node(columns, u + 1, v + 1), LinkKind::Shear),
        ),
        row_diagonals(columns, v, n).contains(
            link(node(columns, u + 1, v), node(columns, u, v + 1), LinkKind::Shear),
        ),
    decreases n,
{
    let all = row_diagonals(columns, v, n);
    let before = row_diagonals(columns, v, (n - 1) as nat);
    let down = link(node(columns, u, v), node(columns, u + 1, v + 1), LinkKind::Shear);
    let up = link(node(columns, u + 1, v), node(columns, u, v + 1), LinkKind::Shear);
    if u < n - 1 {
        lemma_row_diagonal(columns, v, (n - 1) as nat, u);
        let i = choose|i: int| 0 <= i < before.len() && before[i] == down;
        let j = choose|j: int| 0 <= j < before.len() && before[j] == up;
        assert(all[i] == down);
        assert(all[j] == up);
    } else {
        assert(all[before.len() as int] == down);
        assert(all[before.len() as int + 1] == up);
    }
}

proof fn lemma_diagonal(columns: int, width: nat, rows: nat, u: int, v: int)
    requires
        0 <= u < width,
        0 <= v < rows,
    ensures
        diagonals(columns, width, rows).contains(
            link(node(columns, u, v), node(columns, u + 1, v + 1), LinkKind::Shear),
        ),
        diagonals(columns, width, rows).contains(
            link(node(columns, u + 1, v), node(columns, u, v + 1), LinkKind::Shear),
        ),
    decreases rows,
{
    let all = diagonals(columns, width, rows);
    let before = diagonals(columns, width, (rows - 1) as nat);
    let row = row_diagonals(columns, rows - 1, width);
    let down = link(node(columns, u, v), node(columns, u + 1, v + 1), LinkKind::Shear);
    let up = link(node(columns, u + 1, v), node(columns, u, v + 1), LinkKind::Shear);
    if v < rows - 1 {
        lemma_diagonal(columns, width, (rows - 1) as nat, u, v);
        let i = choose|i: int| 0 <= i < before.len() && before[i] == down;
        let j = choose|j: int| 0 <= j < before.len() && before[j] == up;
        assert(all[i] == down);
        assert(all[j] == up);
    } else {
        lemma_row_diagonal(columns, v, width, u);
        let i = choose|i: int| 0 <= i < row.len() && row[i] == down;
        let j = choose|j: int| 0 <= j < row.len() && row[j] == up;
        assert(all[before.len() + i] == down);
        assert(all[before.len() + j] == up);
    }
}

/// The links of a cloth join the nodes at `(u, v)` and `(s, t)` of its grid,
/// which is counted row by row.
pub open spec fn are_linked(
    links: Seq<Link>,
    su: nat,
    u: int,
    v: int,
    s: int,
    t: int,
    kind: LinkKind,
) -> bool {
    links.contains(
        Link {
            a: (u + v * (su + 1)) as usize,
            b: (s + t * (su + 1)) as usize,
            kind,
        },
    )
}

/// A cloth holds together: every node is linked to its neighbours in the row
/// and in the column, and across the cells both ways. One that resists
/// bending is linked to those two apart as well.
pub proof fn law_cloth_nodes_are_linked_to_their_neighbours(
    su: nat,
    sv: nat,
    bends: bool,
    u: int,
    v: int,
)
    requires
        0 <= u <= su,
        0 <= v <= sv,
    ensures
        ({
            let links = cloth_links(su, sv, bends);
            &&& u < su ==> are_linked(links, su, u, v, u + 1, v, LinkKind::Edge)
            &&& v < sv ==> are_linked(links, su, u, v, u, v + 1, LinkKind::Edge)
            &&& u < su && v < sv ==> are_linked(links, su, u, v, u + 1, v + 1, LinkKind::Shear)
                && are_linked(links, su, u + 1, v, u, v + 1, LinkKind::Shear)
            &&& bends && u + 2 <= su ==> are_linked(links, su, u, v, u + 2, v, LinkKind::Bend)
            &&& bends && v + 2 <= sv ==> are_linked(links, su, u, v, u, v + 2, LinkKind::Bend)
        }),
{
    let c = su as int + 1;
    let links = cloth_links(su, sv, bends);
    let across = straight_links(c, su, 1, 0, LinkKind::Edge, sv + 1);
    let down = straight_links(c, su + 1, 0, 1, LinkKind::Edge, sv);
    let cells = diagonals(c, su, sv);
    if u < su {
        lemma_straight_link(c, su, 1, 0, LinkKind::Edge, sv + 1, u, v);
        let l = link(node(c, u, v), node(c, u + 1, v), LinkKind::Edge);
        let k = choose|k: int| 0 <= k < across.len() && across[k] == l;
        assert(links[k] == l);
    }
    if v < sv {
        lemma_straight_link(c, su + 1, 0, 1, LinkKind::Edge, sv, u, v);
        let l = link(node(c, u, v), node(c, u, v + 1), LinkKind::Edge);
        let k = choose|k: int| 0 <= k < down.len() && down[k] == l;
        assert(links[across.len() + k] == l);
    }
    let n = (across.len() + down.len()) as int;
    if u < su && v < sv {
        lemma_diagonal(c, su, sv, u, v);
        let l = link(node(c, u, v), node(c, u + 1, v + 1), LinkKind::Shear);
        let k = choose|k: int| 0 <= k < cells.len() && cells[k] == l;
        assert(links[n + k] == l);
        let m = link(node(c, u + 1, v), node(c, u, v + 1), LinkKind::Shear);
        let j = choose|j: int| 0 <= j < cells.len() && cells[j] == m;
        assert(links[n + j] == m);
    }
    if bends {
        let rows = straight_links(c, one_less(su), 2, 0, LinkKind::Bend, sv + 1);
        let columns = straight_links(c, su + 1, 0, 2, LinkKind::Bend, one_less(sv));
        let at = (n + cells.len()) as int;
        if u + 2 <= su {
            lemma_straight_link(c, one_less(su), 2, 0, LinkKind::Bend, sv + 1, u, v);
            let l = link(node(c, u, v), node(c, u + 2, v), LinkKind::Bend);
            let k = choose|k: int| 0 <= k < rows.len() && rows[k] == l;
            assert(links[at + k] == l);
        }
        if v + 2 <= sv {
            lemma_straight_link(c, su + 1, 0, 2, LinkKind::Bend, one_less(sv), u, v);
            let l = link(node(c, u, v), node(c, u, v + 2), LinkKind::Bend);
            let k = choose|k: int| 0 <= k < columns.len() && columns[k] == l;
            assert(links[at + rows.len() + k] == l);
        }
    }
}

/// The edges of a cloth that collide are its structural links, one for one.
pub proof fn law_cloth_edges_are_its_structure(links: Seq<Link>, n: nat, i: int)
    requires
        0 <= i < n <= links.len(),
    ensures
        link_ends(links, n).len() == n,
        link_ends(links, n)[i] == (links[i].a, links[i].b),
    decreases n,
{
    if n > 1 {
        law_cloth_edges_are_its_structure(
            links,
            (n - 1) as nat,
            if i < n - 1 {
                i
            } else {
                0
            },
        );
    } else {
        assert(link_ends(links, 0).len() == 0);
    }
}

/// Every anchor that names an object of the scene pins its own node of the
/// grid to it, the last one where it lies beyond: to the body of the object
/// where it has one, to a fixed one otherwise.
pub proof fn law_anchors_pin_their_nodes(
    objects: Seq<Object>,
    bodies: Seq<ObjectId>,
    anchors: Seq<ClothAnchor>,
    su: nat,
    sv: nat,
    n: nat,
    i: int,
)
    requires
        0 <= i < n <= anchors.len(),
        anchors[i].object is Some,
        exists_in(objects, anchors[i].object->0),
    ensures
        ({
            let target = anchors[i].object->0;
            let u = if anchors[i].u <= su {
                anchors[i].u as int
            } else {
                su as int
            };
            let v = if anchors[i].v <= sv {
                anchors[i].v as int
            } else {
                sv as int
            };
            cloth_pins(objects, bodies, anchors, su, sv, n).contains(
                Pin {
                    node: (u + v * (su + 1)) as usize,
                    target,
                    body: if bodies.contains(target) {
                        PinBody::Target
                    } else {
                        PinBody::Anchor
                    },
                },
            )
        }),
    decreases n,
{
    let before = cloth_pins(objects, bodies, anchors, su, sv, (n - 1) as nat);
    let now = cloth_pins(objects, bodies, anchors, su, sv, n);
    let u = least(anchors[i].u as int, su as int);
    let v = least(anchors[i].v as int, sv as int);
    let pin = pin_to(node(su as int + 1, u, v), anchors[i].object->0, bodies);
    if i < n - 1 {
        law_anchors_pin_their_nodes(objects, bodies, anchors, su, sv, (n - 1) as nat, i);
        let k = choose|k: int| 0 <= k < before.len() && before[k] == pin;
        assert(now[k] == pin);
    } else {
        assert(now[before.len() as int] == pin);
    }
}

/// A rope is one chain from its first node to its last, of two segments at
/// least, and only these two are pinned: the first to what its start hangs
/// on, the last to what its end hangs on.
pub proof fn law_ropes_are_chains_between_their_ends(
    plan: RopePlan,
    object: Object,
    bodies: Seq<ObjectId>,
)
    requires
        is_rope_plan(plan, object, bodies),
    ensures
        3 <= plan.node_count <= 65,
        plan.links@.len() + 1 == plan.node_count,
        forall|i: int|
            0 <= i < plan.links@.len() ==> (#[trigger] plan.links@[i]).0 == i && plan.links@[i].1 == i
                + 1,
        2 <= object.primitive->Rope_segments <= 64 ==> plan.node_count
            == object.primitive->Rope_segments + 1,
        forall|k: int|
            0 <= k < plan.pins@.len() ==> ((#[trigger] plan.pins@[k]).node == 0
                && object.rope_start.object == Some(plan.pins@[k].target)) || (plan.pins@[k].node + 1
                == plan.node_count && object.rope_end.object == Some(plan.pins@[k].target)),
        object.rope_start.object is Some ==> plan.pins@.len() > 0 && plan.pins@[0].node == 0
            && plan.pins@[0].target == object.rope_start.object->0,
        object.rope_end.object is Some ==> plan.pins@.len() > 0 && plan.pins@.last().node + 1
            == plan.node_count && plan.pins@.last().target == object.rope_end.object->0,
        forall|k: int|
            0 <= k < plan.pins@.len() ==> ((#[trigger] plan.pins@[k]).body is Target
                <==> bodies.contains(plan.pins@[k].target)),
{
}

/// The shapes of a cloth never collide with each other, so its group is a
/// negative one, and other cloths have other groups.
pub proof fn law_cloths_have_their_own_group(a: ObjectId, b: ObjectId)
    requires
        a.0 < 0x7fff_ffff,
        b.0 < 0x7fff_ffff,
    ensures
        cloth_group(a) < 0,
        a != b ==> cloth_group(a) != cloth_group(b),
{
    assert(a.0 as i32 == a.0);
    assert(b.0 as i32 == b.0);
}

/// A cloth is laid out on a grid of the size asked for, within its limits.
pub proof fn law_cloths_have_the_grid_asked_for(
    plan: ClothPlan,
    objects: Seq<Object>,
    object: Object,
    bodies: Seq<ObjectId>,
)
    requires
        is_cloth_plan(plan, objects, object, bodies),
    ensures
        2 <= plan.columns <= 25,
        2 <= plan.rows <= 25,
        1 <= object.primitive->segments_u <= 24 ==> plan.columns == object.primitive->segments_u
            + 1,
        1 <= object.primitive->segments_v <= 24 ==> plan.rows == object.primitive->segments_v + 1,
        !plan.stiffness.less(Scalar { bits: 0 }),
        !(Scalar { bits: ONE_BITS }).less(plan.stiffness),
        plan.rigid ==> !plan.stiffness.less(Scalar { bits: RIGID_STIFFNESS_BITS }),
{
}

} // verus!
