//! Laying a floor: which walls it follows, whether they close a loop, and
//! what it measures.

use vstd::prelude::*;
use crate::modal::hangs_on;
use crate::modifier_ops::{plural, push_plural};
use crate::scalar::{larger, Scalar, Vec3};
use crate::scene::{place_of, Object, ObjectId, Primitive, Scene};
use crate::selection::contains;
use crate::text::{decimal, push_decimal};

verus! {

/// A tenth of a meter: the thickness of a floor, and the least it measures.
pub const TENTH_BITS: u32 = 0x3dcc_cccd;

/// Four meters: the side of a floor without walls.
pub const DEFAULT_SIZE_BITS: u32 = 0x4080_0000;

/// The object `id` or one of its ancestors is selected. At most `steps`
/// ancestors are looked at.
pub open spec fn selected_above(
    objects: Seq<Object>,
    selected: Seq<ObjectId>,
    id: ObjectId,
    steps: nat,
) -> bool
    decreases steps,
{
    if selected.contains(id) {
        true
    } else if steps == 0 {
        false
    } else {
        match place_of(objects, id) {
            Some(i) => match objects[i].parent {
                Some(p) => selected_above(objects, selected, p, (steps - 1) as nat),
                None => false,
            },
            None => false,
        }
    }
}

/// Is the object or one of its ancestors selected?
fn in_selection(scene: &Scene, selected: &Vec<ObjectId>, id: ObjectId) -> (r: bool)
    ensures
        r == selected_above(scene.objects@, selected@, id, scene.objects@.len()),
{
    let mut at = id;
    let mut steps: usize = scene.objects.len();
    loop
        invariant
            steps <= scene.objects@.len(),
            selected_above(scene.objects@, selected@, id, scene.objects@.len()) == selected_above(
                scene.objects@,
                selected@,
                at,
                steps as nat,
            ),
        decreases steps,
    {
        if contains(selected, at) {
            return true;
        }
        if steps == 0 {
            return false;
        }
        match scene.find(at) {
            Some(i) => match scene.objects[i].parent {
                Some(p) => {
                    at = p;
                    steps = steps - 1;
                },
                None => {
                    return false;
                },
            },
            None => {
                return false;
            },
        }
    }
}

/// The walls among the first `n` objects.
pub open spec fn walls_in(objects: Seq<Object>, n: nat) -> Seq<ObjectId>
    decreases n,
{
    if n == 0 {
        seq![]
    } else if objects[n - 1].primitive is Wall {
        walls_in(objects, (n - 1) as nat).push(objects[n - 1].id)
    } else {
        walls_in(objects, (n - 1) as nat)
    }
}

/// Those of the first `n` walls that are selected, or hang on something that
/// is.
pub open spec fn selected_walls(
    objects: Seq<Object>,
    selected: Seq<ObjectId>,
    walls: Seq<ObjectId>,
    n: nat,
) -> Seq<ObjectId>
    decreases n,
{
    if n == 0 {
        seq![]
    } else {
        let before = selected_walls(objects, selected, walls, (n - 1) as nat);
        if selected_above(objects, selected, walls[n - 1], objects.len()) {
            before.push(walls[n - 1])
        } else {
            before
        }
    }
}

/// The walls that a new floor lies under: the selected ones, those in
/// selected groups included, or all where none is selected.
pub open spec fn floor_walls(objects: Seq<Object>, selected: Seq<ObjectId>) -> Seq<ObjectId> {
    let all = walls_in(objects, objects.len());
    let chosen = selected_walls(objects, selected, all, all.len());
    if chosen.len() == 0 {
        all
    } else {
        chosen
    }
}

/// The walls that a new floor lies under.
pub fn walls_for_floor(scene: &Scene, selected: &Vec<ObjectId>) -> (r: Vec<ObjectId>)
    ensures
        r@ == floor_walls(scene.objects@, selected@),
{
    let mut all: Vec<ObjectId> = Vec::new();
    let mut n: usize = 0;
    while n < scene.objects.len()
        invariant
            n <= scene.objects@.len(),
            all@ == walls_in(scene.objects@, n as nat),
        decreases scene.objects@.len() - n,
    {
        if matches!(scene.objects[n].primitive, Primitive::Wall { .. }) {
            all.push(scene.objects[n].id);
        }
        n += 1;
    }
    let mut chosen: Vec<ObjectId> = Vec::new();
    let mut k: usize = 0;
    while k < all.len()
        invariant
            k <= all@.len(),
            chosen@ == selected_walls(scene.objects@, selected@, all@, k as nat),
        decreases all@.len() - k,
    {
        if in_selection(scene, selected, all[k]) {
            chosen.push(all[k]);
        }
        k += 1;
    }
    if chosen.len() == 0 {
        all
    } else {
        chosen
    }
}

/// Where a table says which ends of walls meet: end `2 * w` is the start of
/// wall `w`, end `2 * w + 1` its far end.
pub open spec fn meet(near: Seq<Vec<bool>>, p: int, q: int) -> bool {
    near[p]@[q]
}

/// The table has a row and a column for each end of `walls` walls.
pub open spec fn is_table(near: Seq<Vec<bool>>, walls: nat) -> bool {
    &&& near.len() == 2 * walls
    &&& forall|p: int| 0 <= p < near.len() ==> (#[trigger] near[p])@.len() == 2 * walls
}

/// The wall has an end at `end`.
pub open spec fn touches(near: Seq<Vec<bool>>, wall: int, end: int) -> bool {
    meet(near, 2 * wall, end) || meet(near, 2 * wall + 1, end)
}

/// The place of the first of the first `n` walls that has an end at `end`.
pub open spec fn first_touching(near: Seq<Vec<bool>>, walls: Seq<usize>, end: int, n: nat) -> Option<
    int,
>
    decreases n,
{
    if n == 0 {
        None
    } else if first_touching(near, walls, end, (n - 1) as nat) is Some {
        first_touching(near, walls, end, (n - 1) as nat)
    } else if touches(near, walls[n - 1] as int, end) {
        Some(n - 1)
    } else {
        None
    }
}

/// The end of the wall that is away from `end`.
pub open spec fn far_end(near: Seq<Vec<bool>>, wall: int, end: int) -> int {
    if meet(near, 2 * wall, end) {
        2 * wall + 1
    } else {
        2 * wall
    }
}

/// The list without entry `i`, whose place the last one takes.
pub open spec fn taken_out(walls: Seq<usize>, i: int) -> Seq<usize> {
    walls.update(i, walls.last()).drop_last()
}

/// Follows the walls `rest` from the end `end`, wall by wall. Returns the
/// corners passed and the end reached, or nothing where no wall goes on.
pub open spec fn follow(near: Seq<Vec<bool>>, rest: Seq<usize>, end: int, corners: Seq<usize>) -> Option<
    (Seq<usize>, int),
>
    decreases rest.len(),
{
    if rest.len() == 0 {
        Some((corners, end))
    } else {
        match first_touching(near, rest, end, rest.len()) {
            Some(i) => if 0 <= i < rest.len() {
                follow(
                    near,
                    taken_out(rest, i),
                    far_end(near, rest[i] as int, end),
                    corners.push(end as usize),
                )
            } else {
                None
            },
            None => None,
        }
    }
}

/// All walls, in order.
pub open spec fn all_walls(walls: nat) -> Seq<usize> {
    Seq::new(walls, |i: int| i as usize)
}

/// How many of the first `n` walls have an end at `end`, besides the wall
/// whose end it is.
pub open spec fn others_at(near: Seq<Vec<bool>>, end: int, n: nat) -> nat
    decreases n,
{
    if n == 0 {
        0
    } else {
        others_at(near, end, (n - 1) as nat) + if n - 1 != end / 2 && touches(near, n - 1, end) {
            1nat
        } else {
            0nat
        }
    }
}

/// Each end of a wall meets exactly one other wall: nothing is left open, and
/// nothing branches.
pub open spec fn ends_are_joined(near: Seq<Vec<bool>>, walls: nat) -> bool {
    forall|end: int| 0 <= end < 2 * walls ==> #[trigger] others_at(near, end, walls) == 1
}

/// The corners of the one loop that the walls close, as ends of walls: nothing
/// where there are fewer than three, where they leave a gap or branch, or
/// where they do not all belong to the loop.
pub open spec fn wall_loop(near: Seq<Vec<bool>>, walls: nat) -> Option<Seq<usize>> {
    if walls < 3 || !ends_are_joined(near, walls) {
        None
    } else {
        match follow(near, taken_out(all_walls(walls), 0), 1, seq![0usize]) {
            Some((corners, end)) => if meet(near, end, 0) && corners.len() >= 3 {
                Some(corners)
            } else {
                None
            },
            None => None,
        }
    }
}

fn are_near(near: &Vec<Vec<bool>>, p: usize, q: usize) -> (r: bool)
    requires
        p < near@.len(),
        q < near@[p as int]@.len(),
    ensures
        r == meet(near@, p as int, q as int),
{
    near[p][q]
}

fn find_touching(near: &Vec<Vec<bool>>, rest: &Vec<usize>, end: usize, Ghost(walls): Ghost<nat>) -> (r:
    Option<usize>)
    requires
        is_table(near@, walls),
        2 * walls <= usize::MAX,
        end < 2 * walls,
        forall|i: int| 0 <= i < rest@.len() ==> (#[trigger] rest@[i]) < walls,
    ensures
        r matches Some(i) ==> first_touching(near@, rest@, end as int, rest@.len()) == Some(
            i as int,
        ) && i < rest@.len(),
        r is None ==> first_touching(near@, rest@, end as int, rest@.len()) is None,
{
    let mut found: Option<usize> = None;
    let mut n: usize = 0;
    while n < rest.len()
        invariant
            n <= rest@.len(),
            is_table(near@, walls),
            2 * walls <= usize::MAX,
            end < 2 * walls,
            forall|i: int| 0 <= i < rest@.len() ==> (#[trigger] rest@[i]) < walls,
            found matches Some(i) ==> first_touching(near@, rest@, end as int, n as nat) == Some(
                i as int,
            ) && i < n,
            found is None ==> first_touching(near@, rest@, end as int, n as nat) is None,
        decreases rest@.len() - n,
    {
        let w: usize = rest[n];
        assert(rest@[n as int] < walls);
        if found.is_none() && (are_near(near, 2 * w, end) || are_near(near, 2 * w + 1, end)) {
            found = Some(n);
        }
        n += 1;
    }
    found
}

fn all_joined(near: &Vec<Vec<bool>>, walls: usize) -> (r: bool)
    requires
        is_table(near@, walls as nat),
        2 * walls <= usize::MAX,
    ensures
        r == ends_are_joined(near@, walls as nat),
{
    let mut end: usize = 0;
    while end < 2 * walls
        invariant
            end <= 2 * walls,
            is_table(near@, walls as nat),
            2 * walls <= usize::MAX,
            forall|e: int| 0 <= e < end ==> #[trigger] others_at(near@, e, walls as nat) == 1,
        decreases 2 * walls - end,
    {
        let mut others: usize = 0;
        let mut w: usize = 0;
        while w < walls
            invariant
                w <= walls,
                end < 2 * walls,
                is_table(near@, walls as nat),
                2 * walls <= usize::MAX,
                others <= w,
                others == others_at(near@, end as int, w as nat),
            decreases walls - w,
        {
            if w != end / 2 && (are_near(near, 2 * w, end) || are_near(near, 2 * w + 1, end)) {
                others += 1;
            }
            w += 1;
        }
        if others != 1 {
            assert(others_at(near@, end as int, walls as nat) != 1);
            return false;
        }
        end += 1;
    }
    true
}

/// The corners of the loop that the walls close, as ends of walls. `near`
/// says which ends meet.
pub fn wall_loop_outline(near: &Vec<Vec<bool>>, walls: usize) -> (r: Option<Vec<usize>>)
    requires
        is_table(near@, walls as nat),
        2 * walls <= usize::MAX,
    ensures
        r is Some == wall_loop(near@, walls as nat) is Some,
        r matches Some(corners) ==> wall_loop(near@, walls as nat) == Some(corners@),
{
    if walls < 3 || !all_joined(near, walls) {
        return None;
    }
    let mut rest: Vec<usize> = Vec::new();
    let mut k: usize = 0;
    while k < walls
        invariant
            k <= walls,
            rest@ == all_walls(k as nat),
        decreases walls - k,
    {
        rest.push(k);
        k += 1;
        assert(rest@ =~= all_walls(k as nat));
    }
    let first = rest.swap_remove(0);
    let mut corners: Vec<usize> = Vec::new();
    corners.push(0);
    assert(corners@ =~= seq![0usize]);
    let mut end: usize = 1;
    while rest.len() > 0
        invariant
            is_table(near@, walls as nat),
            2 * walls <= usize::MAX,
            3 <= walls,
            end < 2 * walls,
            forall|i: int| 0 <= i < rest@.len() ==> (#[trigger] rest@[i]) < walls,
            follow(near@, taken_out(all_walls(walls as nat), 0), 1, seq![0usize]) == follow(
                near@,
                rest@,
                end as int,
                corners@,
            ),
        decreases rest@.len(),
    {
        let ghost before = rest@;
        corners.push(end);
        match find_touching(near, &rest, end, Ghost(walls as nat)) {
            Some(i) => {
                let w = rest.swap_remove(i);
                assert(w == before[i as int] && w < walls);
                assert forall|k: int| 0 <= k < rest@.len() implies (#[trigger] rest@[k])
                    < walls by {
                    if k != i {
                        assert(before[k] < walls);
                    } else {
                        assert(before[before.len() - 1] < walls);
                    }
                }
                end = if are_near(near, 2 * w, end) {
                    2 * w + 1
                } else {
                    2 * w
                };
            },
            None => {
                return None;
            },
        }
    }
    if are_near(near, end, 0) && corners.len() >= 3 {
        Some(corners)
    } else {
        None
    }
}

proof fn lemma_follow_length(
    near: Seq<Vec<bool>>,
    rest: Seq<usize>,
    end: int,
    corners: Seq<usize>,
)
    ensures
        follow(near, rest, end, corners) matches Some(done) ==> done.0.len() == corners.len()
            + rest.len(),
    decreases rest.len(),
{
    if rest.len() > 0 {
        match first_touching(near, rest, end, rest.len()) {
            Some(i) => {
                if 0 <= i < rest.len() {
                    lemma_follow_length(
                        near,
                        taken_out(rest, i),
                        far_end(near, rest[i] as int, end),
                        corners.push(end as usize),
                    );
                }
            },
            None => {},
        }
    }
}

/// A loop has as many corners as walls: every wall is part of it. At each
/// corner exactly two walls meet.
pub proof fn law_loop_uses_every_wall(near: Seq<Vec<bool>>, walls: nat)
    ensures
        wall_loop(near, walls) matches Some(corners) ==> {
            &&& corners.len() == walls
            &&& walls >= 3
            &&& forall|end: int|
                0 <= end < 2 * walls ==> #[trigger] others_at(near, end, walls) == 1
        },
{
    lemma_follow_length(near, taken_out(all_walls(walls), 0), 1, seq![0usize]);
}

/// What a floor covers.
#[derive(Clone, Copy, PartialEq, Eq, Structural, Debug)]
pub struct Footprint {
    pub width: Scalar,
    pub depth: Scalar,
    pub center_x: Scalar,
    pub center_y: Scalar,
}

/// A floor to add.
#[derive(Debug)]
pub struct FloorPlan {
    pub primitive: Primitive,
    pub location: Vec3,
    /// The floor follows the outline of the loop.
    pub outlined: bool,
    pub message: String,
}

/// The floor over a footprint.
pub open spec fn floor_over(f: Footprint) -> Primitive {
    let least = Scalar { bits: TENTH_BITS };
    Primitive::Floor {
        width: larger(f.width, least),
        depth: larger(f.depth, least),
        thickness: least,
    }
}

/// The point of the ground at the center of a footprint.
pub open spec fn center_of(f: Footprint) -> Vec3 {
    Vec3 { x: f.center_x, y: f.center_y, z: Scalar { bits: 0 } }
}

fn slab(f: Footprint) -> (r: Primitive)
    ensures
        r == floor_over(f),
{
    let least = Scalar { bits: TENTH_BITS };
    Primitive::Floor {
        width: f.width.at_least(least),
        depth: f.depth.at_least(least),
        thickness: least,
    }
}

/// The floor for `walls` walls: over the loop that they close, or else over
/// the rectangle around them, or else a square at the origin.
pub fn add_floor_for_walls(walls: usize, closed: Option<Footprint>, bounds: Option<Footprint>) -> (r:
    FloorPlan)
    ensures
        match (closed, bounds) {
            (Some(f), _) => {
                &&& r.primitive == floor_over(f)
                &&& r.location == center_of(f)
                &&& r.outlined
                &&& r.message@ == "floor added following "@ + decimal(walls as nat) + " walls"@
            },
            (None, Some(f)) => {
                &&& r.primitive == floor_over(f)
                &&& r.location == center_of(f)
                &&& !r.outlined
                &&& r.message@ == "floor added under "@ + decimal(walls as nat) + " wall"@
                    + plural(walls as nat)
            },
            (None, None) => {
                let side = Scalar { bits: DEFAULT_SIZE_BITS };
                &&& r.primitive == (Primitive::Floor {
                    width: side,
                    depth: side,
                    thickness: Scalar { bits: TENTH_BITS },
                })
                &&& r.location.x.bits == 0 && r.location.y.bits == 0 && r.location.z.bits == 0
                &&& !r.outlined
                &&& r.message@
                    == "floor added — no walls to size from, using a 4 m square"@
            },
        },
{
    let zero = Scalar { bits: 0 };
    match closed {
        Some(f) => {
            let mut message = "floor added following ".to_owned();
            push_decimal(&mut message, walls as u64);
            message.append(" walls");
            return FloorPlan {
                primitive: slab(f),
                location: Vec3 { x: f.center_x, y: f.center_y, z: zero },
                outlined: true,
                message,
            };
        },
        None => {},
    }
    match bounds {
        Some(f) => {
            let mut message = "floor added under ".to_owned();
            push_decimal(&mut message, walls as u64);
            message.append(" wall");
            push_plural(&mut message, walls);
            FloorPlan {
                primitive: slab(f),
                location: Vec3 { x: f.center_x, y: f.center_y, z: zero },
                outlined: false,
                message,
            }
        },
        None => {
            let side = Scalar { bits: DEFAULT_SIZE_BITS };
            FloorPlan {
                primitive: Primitive::Floor {
                    width: side,
                    depth: side,
                    thickness: Scalar { bits: TENTH_BITS },
                },
                location: Vec3 { x: zero, y: zero, z: zero },
                outlined: false,
                message: "floor added — no walls to size from, using a 4 m square".to_owned(),
            }
        },
    }
}

/// An object counts as selected where it is, or where it hangs on a selected
/// object.
pub proof fn law_selection_reaches_down(
    objects: Seq<Object>,
    selected: Seq<ObjectId>,
    id: ObjectId,
    steps: nat,
)
    ensures
        selected_above(objects, selected, id, steps) <==> selected.contains(id) || exists|a: ObjectId|
            selected.contains(a) && #[trigger] hangs_on(objects, id, a, steps),
    decreases steps,
{
    if steps > 0 {
        if let Some(i) = place_of(objects, id) {
            if let Some(p) = objects[i].parent {
                law_selection_reaches_down(objects, selected, p, (steps - 1) as nat);
                if selected.contains(p) {
                    assert(hangs_on(objects, id, p, steps));
                }
                if exists|a: ObjectId|
                    selected.contains(a) && #[trigger] hangs_on(objects, p, a, (steps - 1) as nat) {
                    let a = choose|a: ObjectId|
                        selected.contains(a) && #[trigger] hangs_on(
                            objects,
                            p,
                            a,
                            (steps - 1) as nat,
                        );
                    assert(hangs_on(objects, id, a, steps));
                }
                if exists|a: ObjectId| selected.contains(a) && #[trigger] hangs_on(objects, id, a, steps) {
                    let a = choose|a: ObjectId|
                        selected.contains(a) && #[trigger] hangs_on(objects, id, a, steps);
                    assert(p == a || hangs_on(objects, p, a, (steps - 1) as nat));
                }
            }
        }
    }
}

proof fn lemma_walls_in(objects: Seq<Object>, n: nat, id: ObjectId)
    requires
        n <= objects.len(),
    ensures
        walls_in(objects, n).contains(id) <==> exists|k: int|
            0 <= k < n && (#[trigger] objects[k]).id == id && objects[k].primitive is Wall,
    decreases n,
{
    if n > 0 {
        lemma_walls_in(objects, (n - 1) as nat, id);
        let before = walls_in(objects, (n - 1) as nat);
        let now = walls_in(objects, n);
        if before.contains(id) {
            let k = choose|k: int| 0 <= k < before.len() && before[k] == id;
            assert(now[k] == id);
        }
        if objects[n - 1].id == id && objects[n - 1].primitive is Wall {
            assert(now[before.len() as int] == id);
        }
        if now.contains(id) && !before.contains(id) {
            assert(objects[n - 1].id == id);
        }
    }
}

proof fn lemma_selected_walls(
    objects: Seq<Object>,
    selected: Seq<ObjectId>,
    walls: Seq<ObjectId>,
    n: nat,
    id: ObjectId,
)
    requires
        n <= walls.len(),
    ensures
        selected_walls(objects, selected, walls, n).contains(id) <==> selected_above(
            objects,
            selected,
            id,
            objects.len(),
        ) && exists|k: int| 0 <= k < n && #[trigger] walls[k] == id,
    decreases n,
{
    if n > 0 {
        lemma_selected_walls(objects, selected, walls, (n - 1) as nat, id);
        let before = selected_walls(objects, selected, walls, (n - 1) as nat);
        let now = selected_walls(objects, selected, walls, n);
        if before.contains(id) {
            let k = choose|k: int| 0 <= k < before.len() && before[k] == id;
            assert(now[k] == id);
        }
        if walls[n - 1] == id && selected_above(objects, selected, id, objects.len()) {
            assert(now[before.len() as int] == id);
        }
        if now.contains(id) && !before.contains(id) {
            assert(walls[n - 1] == id);
        }
    }
}

/// This object is a wall of the scene.
pub open spec fn is_wall(objects: Seq<Object>, id: ObjectId) -> bool {
    exists|k: int|
        0 <= k < objects.len() && (#[trigger] objects[k]).id == id && objects[k].primitive is Wall
}

/// A floor is laid under the walls that are selected, or that hang on what
/// is; where none are, under all walls of the scene. Nothing but walls counts.
pub proof fn law_floors_go_under_walls(objects: Seq<Object>, selected: Seq<ObjectId>, id: ObjectId)
    ensures
        floor_walls(objects, selected).contains(id) ==> is_wall(objects, id),
        is_wall(objects, id) && selected_above(objects, selected, id, objects.len()) ==> floor_walls(
            objects,
            selected,
        ).contains(id),
        is_wall(objects, id) && (forall|w: ObjectId|
            is_wall(objects, w) ==> !#[trigger] selected_above(objects, selected, w, objects.len()))
            ==> floor_walls(objects, selected).contains(id),
        (exists|w: ObjectId|
            is_wall(objects, w) && #[trigger] selected_above(objects, selected, w, objects.len()))
            && floor_walls(objects, selected).contains(id) ==> selected_above(
            objects,
            selected,
            id,
            objects.len(),
        ),
{
    let all = walls_in(objects, objects.len());
    let chosen = selected_walls(objects, selected, all, all.len());
    lemma_walls_in(objects, objects.len(), id);
    lemma_selected_walls(objects, selected, all, all.len(), id);
    if all.contains(id) {
        let k = choose|k: int| 0 <= k < all.len() && all[k] == id;
        assert(all[k] == id);
    }
    if chosen.len() > 0 {
        let w = chosen[0];
        assert(chosen.contains(w));
        lemma_selected_walls(objects, selected, all, all.len(), w);
        let k = choose|k: int| 0 <= k < all.len() && #[trigger] all[k] == w;
        assert(all.contains(w));
        lemma_walls_in(objects, objects.len(), w);
        assert(is_wall(objects, w));
        assert(selected_above(objects, selected, w, objects.len()));
    }
    if exists|w: ObjectId|
        is_wall(objects, w) && #[trigger] selected_above(objects, selected, w, objects.len()) {
        let w = choose|w: ObjectId|
            is_wall(objects, w) && #[trigger] selected_above(objects, selected, w, objects.len());
        lemma_walls_in(objects, objects.len(), w);
        lemma_selected_walls(objects, selected, all, all.len(), w);
        assert(all.contains(w));
        let k = choose|k: int| 0 <= k < all.len() && all[k] == w;
        assert(all[k] == w);
        assert(chosen.contains(w));
    }
}

/// The other end of the wall that has this end.
pub open spec fn partner(end: int) -> int {
    if end % 2 == 0 {
        end + 1
    } else {
        end - 1
    }
}

proof fn lemma_first_touching(near: Seq<Vec<bool>>, walls: Seq<usize>, end: int, n: nat)
    requires
        n <= walls.len(),
    ensures
        first_touching(near, walls, end, n) matches Some(i) ==> 0 <= i < n && touches(
            near,
            walls[i] as int,
            end,
        ),
    decreases n,
{
    if n > 0 {
        lemma_first_touching(near, walls, end, (n - 1) as nat);
    }
}

/// Of corner `k` the wall is entered by the end that meets the corner before.
pub open spec fn follows_on(near: Seq<Vec<bool>>, corners: Seq<usize>, k: int) -> bool {
    meet(near, partner(corners[k] as int), corners[k - 1] as int)
}

proof fn lemma_follow(near: Seq<Vec<bool>>, rest: Seq<usize>, end: int, corners: Seq<usize>)
    requires
        rest.no_duplicates(),
        forall|i: int| 0 <= i < rest.len() ==> 2 * (#[trigger] rest[i]) + 1 <= usize::MAX,
        0 <= end <= usize::MAX,
        follow(near, rest, end, corners) is Some,
    ensures
        ({
            let (all, last) = follow(near, rest, end, corners)->0;
            let n = corners.len();
            &&& all.len() == n + rest.len()
            &&& corners.is_prefix_of(all)
            &&& rest.len() == 0 ==> last == end
            &&& rest.len() > 0 ==> all[n as int] == end && meet(
                near,
                partner(last),
                all.last() as int,
            ) && rest.contains((last / 2) as usize) && 0 <= last <= usize::MAX
            &&& forall|k: int| n < k < all.len() ==> #[trigger] follows_on(near, all, k)
            &&& forall|k: int|
                n < k < all.len() ==> rest.contains((#[trigger] all[k] / 2) as usize)
            &&& forall|j: int, k: int|
                n < j < k < all.len() ==> #[trigger] all[j] / 2 != #[trigger] all[k] / 2
            &&& forall|k: int| n < k < all.len() ==> #[trigger] all[k] / 2 != last / 2
        }),
    decreases rest.len(),
{
    if rest.len() > 0 {
        lemma_first_touching(near, rest, end, rest.len());
        let i = first_touching(near, rest, end, rest.len())->0;
        let w = rest[i];
        let less = taken_out(rest, i);
        let far = far_end(near, w as int, end);
        let more = corners.push(end as usize);
        assert forall|j: int| 0 <= j < less.len() implies rest.contains(#[trigger] less[j])
            && less[j] != w && 2 * less[j] + 1 <= usize::MAX by {
            if j == i {
                assert(less[j] == rest[rest.len() - 1]);
            } else {
                assert(less[j] == rest[j]);
            }
        }
        assert forall|a: int, b: int| 0 <= a < less.len() && 0 <= b < less.len() && a != b implies less[a]
            != less[b] by {
            let x = if a == i {
                rest.len() - 1
            } else {
                a
            };
            let y = if b == i {
                rest.len() - 1
            } else {
                b
            };
            assert(less[a] == rest[x] && less[b] == rest[y]);
        }
        assert(far / 2 == w);
        assert(meet(near, partner(far), end));
        lemma_follow(near, less, far, more);
        let (all, last) = follow(near, rest, end, corners)->0;
        let n = corners.len();
        assert((all, last) == follow(near, less, far, more)->0);
        assert(more[n as int] == end);
        assert(all[n as int] == end);
        assert(rest.contains(w));
        assert forall|k: int| n < k < all.len() implies #[trigger] follows_on(near, all, k) by {
            if k == n + 1 {
                assert(all[k] == far);
            }
        }
        assert forall|k: int| n < k < all.len() implies rest.contains(
            (#[trigger] all[k] / 2) as usize,
        ) by {
            if k == n + 1 {
                assert(all[k] == far);
            } else {
                assert(less.contains((all[k] / 2) as usize));
                let j = choose|j: int| 0 <= j < less.len() && less[j] == (all[k] / 2) as usize;
                assert(rest.contains(less[j]));
            }
        }
        if less.len() > 0 {
            assert(all[(n + 1) as int] == far);
            assert(less.contains((last / 2) as usize));
            let j = choose|j: int| 0 <= j < less.len() && less[j] == (last / 2) as usize;
            assert(rest.contains(less[j]) && less[j] != w);
            assert(last / 2 != far / 2);
        }
        assert forall|j: int, k: int| n < j < k < all.len() implies #[trigger] all[j] / 2
            != #[trigger] all[k] / 2 by {
            if j == n + 1 {
                assert(all[j] == far);
                assert(less.contains((all[k] / 2) as usize));
                let m = choose|m: int| 0 <= m < less.len() && less[m] == (all[k] / 2) as usize;
                assert(less[m] != w);
            }
        }
        assert forall|k: int| n < k < all.len() implies #[trigger] all[k] / 2 != last / 2 by {
            if k == n + 1 {
                assert(all[k] == far);
                assert(less.len() > 0);
            }
        }
    }
}

/// The corners go round the walls one after the other: they start at one end
/// of the first wall and go to its other end, and from there on to the far
/// end of a wall whose near end meets the corner before. No wall is passed
/// twice.
pub proof fn law_corners_go_round_the_walls(near: Seq<Vec<bool>>, walls: nat)
    requires
        2 * walls <= usize::MAX,
        wall_loop(near, walls) is Some,
    ensures
        ({
            let corners = wall_loop(near, walls)->0;
            &&& corners.len() == walls
            &&& corners[0] == 0 && corners[1] == 1
            &&& forall|k: int| 2 <= k < corners.len() ==> #[trigger] follows_on(near, corners, k)
            &&& forall|j: int, k: int|
                2 <= j < k < corners.len() ==> #[trigger] corners[j] / 2 != #[trigger] corners[k] / 2
            &&& forall|k: int| 2 <= k < corners.len() ==> 0 < #[trigger] corners[k] / 2 < walls
        }),
{
    let all = all_walls(walls);
    let rest = taken_out(all, 0);
    assert forall|j: int| 0 <= j < rest.len() implies 0 < (#[trigger] rest[j]) < walls && 2 * rest[j]
        + 1 <= usize::MAX by {
        if j == 0 {
            assert(rest[j] == all[all.len() - 1]);
        } else {
            assert(rest[j] == all[j]);
        }
    }
    assert(rest.no_duplicates());
    lemma_follow(near, rest, 1, seq![0usize]);
    let corners = wall_loop(near, walls)->0;
    assert(seq![0usize].is_prefix_of(corners));
    assert(corners[0] == seq![0usize][0]);
    assert forall|k: int| 2 <= k < corners.len() implies 0 < #[trigger] corners[k] / 2 < walls by {
        assert(rest.contains((corners[k] / 2) as usize));
        let j = choose|j: int| 0 <= j < rest.len() && rest[j] == (corners[k] / 2) as usize;
        assert(0 < rest[j] < walls);
    }
}

/// A floor covers its footprint, centered under it on the ground, and is
/// never smaller than a tenth of a meter either way.
pub proof fn law_floors_cover_the_footprint(f: Footprint)
    ensures
        ({
            let floor = floor_over(f);
            let least = Scalar { bits: TENTH_BITS };
            &&& floor is Floor
            &&& !floor->Floor_width.less(least) && !floor->Floor_depth.less(least)
            &&& !f.width.nan() && !f.width.less(least) ==> floor->Floor_width == f.width
            &&& !f.depth.nan() && !f.depth.less(least) ==> floor->Floor_depth == f.depth
            &&& center_of(f).x == f.center_x && center_of(f).y == f.center_y
            &&& center_of(f).z.bits == 0
        }),
{
}

} // verus!
