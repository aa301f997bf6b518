//! Modifier stacks: how the mesh shown for an object comes about, what it
//! depends on, and the operations on a stack.
//!
//! Modifiers are non-destructive. The mesh shown is the base mesh with the
//! enabled stack applied; nothing touches the document until the stack is
//! applied, which bakes the result into the object's edited mesh.

use vstd::prelude::*;
use crate::fingerprint::{
    bool_to_word, bool_word, digest, digest_of, hash_primitive, hash_transform, primitive_words,
    transform_words,
};
use crate::scalar::{identity, Transform};
use crate::scene::{
    exists_in, lemma_place_of, place_of, BooleanOp, Modifier, ModifierKind, Object, ObjectId, Scene,
};
use crate::selection::contains;
use crate::seqs::lemma_distinct_below;
use crate::text::join;

verus! {

/// The placement in the world of the object `id`, where `worlds` are those
/// of the scene's objects in order.
pub open spec fn world_of(objects: Seq<Object>, worlds: Seq<Transform>, id: ObjectId) -> Transform {
    match place_of(objects, id) {
        Some(i) => worlds[i],
        None => identity(),
    }
}

pub(crate) fn world_at(scene: &Scene, worlds: &Vec<Transform>, id: ObjectId) -> (r: Transform)
    requires
        worlds@.len() == scene.objects@.len(),
    ensures
        r == world_of(scene.objects@, worlds@, id),
{
    match scene.find(id) {
        Some(i) => worlds[i],
        None => Transform::default(),
    }
}

/// The word for an operation.
pub open spec fn op_word(op: BooleanOp) -> u64 {
    match op {
        BooleanOp::Union => 0,
        BooleanOp::Subtract => 1,
        BooleanOp::Intersect => 2,
    }
}

fn op_to_word(op: BooleanOp) -> (r: u64)
    ensures
        r == op_word(op),
{
    match op {
        BooleanOp::Union => 0,
        BooleanOp::Subtract => 1,
        BooleanOp::Intersect => 2,
    }
}

/// What an object's own mesh depends on.
pub open spec fn own_words(o: Object) -> Seq<u64> {
    seq![o.mesh_revision, bool_word(o.smooth)] + primitive_words(o.primitive)
}

/// Everything that the evaluated mesh of `id` depends on: its own mesh and
/// every enabled modifier. A boolean adds both placements and all that its
/// tool depends on. An object that is being visited already, `visiting`,
/// adds its own mesh only.
pub open spec fn stamp_words(
    objects: Seq<Object>,
    worlds: Seq<Transform>,
    id: ObjectId,
    visiting: Seq<ObjectId>,
) -> Seq<u64>
    decreases objects.len() - visiting.len(), 0nat,
{
    match place_of(objects, id) {
        None => seq![u64::MAX],
        Some(i) => if visiting.contains(id) || visiting.len() >= objects.len() {
            own_words(objects[i])
        } else {
            own_words(objects[i]) + stack_words(
                objects,
                worlds,
                id,
                objects[i].modifiers@,
                visiting.push(id),
                objects[i].modifiers@.len(),
            )
        },
    }
}

/// What the first `n` modifiers of the stack of `id` add.
pub open spec fn stack_words(
    objects: Seq<Object>,
    worlds: Seq<Transform>,
    id: ObjectId,
    stack: Seq<Modifier>,
    visiting: Seq<ObjectId>,
    n: nat,
) -> Seq<u64>
    decreases objects.len() - visiting.len(), n,
{
    if n == 0 {
        seq![]
    } else {
        let before = stack_words(objects, worlds, id, stack, visiting, (n - 1) as nat);
        let m = stack[n - 1];
        if !m.enabled {
            before
        } else {
            match m.kind {
                ModifierKind::Subdivision { levels } => before + seq![1u64, levels as u64],
                ModifierKind::Boolean { op, object } => before + seq![
                    2u64,
                    op_word(op),
                    object.0,
                ] + transform_words(world_of(objects, worlds, id)) + transform_words(
                    world_of(objects, worlds, object),
                ) + stamp_words(objects, worlds, object, visiting),
            }
        }
    }
}

/// While some existing object is not being visited, fewer are visited than
/// there are objects: the bound on visits never cuts a fingerprint or a plan
/// short.
pub proof fn law_visits_have_room(objects: Seq<Object>, visiting: Seq<ObjectId>, id: ObjectId)
    requires
        visiting.no_duplicates(),
        forall|k: int| 0 <= k < visiting.len() ==> exists_in(objects, #[trigger] visiting[k]),
        exists_in(objects, id),
        !visiting.contains(id),
    ensures
        visiting.len() < objects.len(),
{
    let all = visiting.push(id);
    let places = Seq::new(all.len(), |k: int| place_of(objects, all[k])->0);
    assert forall|k: int| 0 <= k < all.len() implies exists_in(objects, #[trigger] all[k]) by {
        if k < visiting.len() {
            assert(all[k] == visiting[k]);
        }
    }
    assert forall|k: int| 0 <= k < places.len() implies 0 <= (#[trigger] places[k])
        < objects.len() by {
        lemma_place_of(objects, all[k]);
        assert(exists_in(objects, all[k]));
    }
    assert forall|a: int, b: int|
        0 <= a < places.len() && 0 <= b < places.len() && a != b implies places[a]
        != places[b] by {
        lemma_place_of(objects, all[a]);
        lemma_place_of(objects, all[b]);
        assert(exists_in(objects, all[a]) && exists_in(objects, all[b]));
        if a < visiting.len() && b < visiting.len() {
            assert(visiting[a] != visiting[b]);
        } else if a < visiting.len() {
            assert(visiting.contains(visiting[a]));
        } else {
            assert(visiting.contains(visiting[b]));
        }
    }
    lemma_distinct_below(places, objects.len());
}

fn stamp_into(
    scene: &Scene,
    worlds: &Vec<Transform>,
    id: ObjectId,
    words: &mut Vec<u64>,
    visiting: &mut Vec<ObjectId>,
)
    requires
        worlds@.len() == scene.objects@.len(),
    ensures
        final(words)@ == old(words)@ + stamp_words(
            scene.objects@,
            worlds@,
            id,
            old(visiting)@,
        ),
        final(visiting)@ == old(visiting)@,
    decreases scene.objects@.len() - old(visiting)@.len(),
{
    let found = scene.find(id);
    if found.is_none() {
        words.push(u64::MAX);
        assert(words@ =~= old(words)@ + seq![u64::MAX]);
        return;
    }
    let object = &scene.objects[found.unwrap()];
    words.push(object.mesh_revision);
    words.push(bool_to_word(object.smooth));
    hash_primitive(words, &object.primitive);
    assert(words@ =~= old(words)@ + own_words(*object));
    if contains(visiting, id) || visiting.len() >= scene.objects.len() {
        return;
    }
    visiting.push(id);
    let ghost start = words@;
    let ghost inside = visiting@;
    let mut n: usize = 0;
    assert(start + stack_words(scene.objects@, worlds@, id, object.modifiers@, inside, 0)
        =~= start);
    while n < object.modifiers.len()
        invariant
            n <= object.modifiers@.len(),
            worlds@.len() == scene.objects@.len(),
            old(visiting)@.len() < scene.objects@.len(),
            inside == old(visiting)@.push(id),
            visiting@ == inside,
            words@ == start + stack_words(
                scene.objects@,
                worlds@,
                id,
                object.modifiers@,
                inside,
                n as nat,
            ),
        decreases object.modifiers@.len() - n,
    {
        let m = object.modifiers[n];
        let ghost before = words@;
        let ghost so_far = stack_words(
            scene.objects@,
            worlds@,
            id,
            object.modifiers@,
            inside,
            n as nat,
        );
        if m.enabled {
            match m.kind {
                ModifierKind::Subdivision { levels } => {
                    words.push(1);
                    words.push(levels as u64);
                    assert(words@ =~= start + (so_far + seq![1u64, levels as u64]));
                },
                ModifierKind::Boolean { op, object: tool } => {
                    words.push(2);
                    words.push(op_to_word(op));
                    words.push(tool.0);
                    let here = world_at(scene, worlds, id);
                    let there = world_at(scene, worlds, tool);
                    hash_transform(words, &here);
                    hash_transform(words, &there);
                    stamp_into(scene, worlds, tool, words, visiting);
                    assert(words@ =~= start + (so_far + seq![2u64, op_word(op), tool.0]
                        + transform_words(here) + transform_words(there) + stamp_words(
                        scene.objects@,
                        worlds@,
                        tool,
                        inside,
                    )));
                },
            }
        }
        n += 1;
    }
    visiting.pop();
    assert(visiting@ =~= old(visiting)@);
    assert(words@ =~= old(words)@ + stamp_words(scene.objects@, worlds@, id, old(visiting)@));
}

/// Fingerprint of everything that the evaluated mesh of an object depends
/// on, as words. `worlds` are the placements of the scene's objects in the
/// world, in order.
pub fn stamp_of(scene: &Scene, worlds: &Vec<Transform>, id: ObjectId) -> (r: Vec<u64>)
    requires
        worlds@.len() == scene.objects@.len(),
    ensures
        r@ == stamp_words(scene.objects@, worlds@, id, seq![]),
{
    let mut words: Vec<u64> = Vec::new();
    let mut visiting: Vec<ObjectId> = Vec::new();
    assert(visiting@ =~= seq![]);
    stamp_into(scene, worlds, id, &mut words, &mut visiting);
    assert(words@ =~= stamp_words(scene.objects@, worlds@, id, seq![]));
    words
}

/// Fingerprint of everything that the evaluated mesh of an object depends
/// on: renderers key their caches by it.
pub fn stamp(scene: &Scene, worlds: &Vec<Transform>, id: ObjectId) -> (r: u64)
    requires
        worlds@.len() == scene.objects@.len(),
    ensures
        r == digest_of(stamp_words(scene.objects@, worlds@, id, seq![])),
{
    digest(&stamp_of(scene, worlds, id))
}

/// One step of evaluating a mesh, on a stack of meshes.
#[derive(Clone, Copy, PartialEq, Eq, Structural, Debug)]
pub enum MeshStep {
    /// Push an empty mesh.
    Empty,
    /// Push the base mesh of an object.
    Base(ObjectId),
    /// Subdivide the top mesh.
    Subdivide { levels: u8, smooth: bool },
    /// Take the top mesh off, bring it from the frame of `tool` into that of
    /// `target`, and combine the mesh below with it. An empty result leaves
    /// the mesh below as it was, or is refused if `strict`.
    Combine { op: BooleanOp, tool: ObjectId, target: ObjectId, strict: bool },
}

/// The steps that evaluate `id` with the first `count` entries of its stack.
/// Tools are evaluated with their full stacks; an object that is being
/// visited already gives its base mesh, which breaks reference cycles.
pub open spec fn plan_steps(
    objects: Seq<Object>,
    id: ObjectId,
    count: nat,
    visiting: Seq<ObjectId>,
    strict: bool,
) -> Seq<MeshStep>
    decreases objects.len() - visiting.len(), 0nat,
{
    match place_of(objects, id) {
        None => seq![MeshStep::Empty],
        Some(i) => if visiting.contains(id) || visiting.len() >= objects.len() {
            seq![MeshStep::Base(id)]
        } else {
            let stack = objects[i].modifiers@;
            seq![MeshStep::Base(id)] + stack_steps(
                objects,
                id,
                objects[i].smooth,
                stack,
                visiting.push(id),
                strict,
                if count < stack.len() {
                    count
                } else {
                    stack.len()
                },
            )
        },
    }
}

/// The steps for the first `n` modifiers of the stack of `id`. A boolean
/// whose tool is the object itself, or is not there, does nothing.
pub open spec fn stack_steps(
    objects: Seq<Object>,
    id: ObjectId,
    smooth: bool,
    stack: Seq<Modifier>,
    visiting: Seq<ObjectId>,
    strict: bool,
    n: nat,
) -> Seq<MeshStep>
    decreases objects.len() - visiting.len(), n,
{
    if n == 0 {
        seq![]
    } else {
        let before = stack_steps(objects, id, smooth, stack, visiting, strict, (n - 1) as nat);
        let m = stack[n - 1];
        if !m.enabled {
            before
        } else {
            match m.kind {
                ModifierKind::Subdivision { levels } => if levels > 0 {
                    before.push(MeshStep::Subdivide { levels, smooth })
                } else {
                    before
                },
                ModifierKind::Boolean { op, object } => if object == id || !exists_in(
                    objects,
                    object,
                ) {
                    before
                } else {
                    (before + plan_steps(
                        objects,
                        object,
                        usize::MAX as nat,
                        visiting,
                        false,
                    )).push(MeshStep::Combine { op, tool: object, target: id, strict })
                },
            }
        }
    }
}

fn plan_into(
    scene: &Scene,
    id: ObjectId,
    count: usize,
    steps: &mut Vec<MeshStep>,
    visiting: &mut Vec<ObjectId>,
    strict: bool,
)
    ensures
        final(steps)@ == old(steps)@ + plan_steps(
            scene.objects@,
            id,
            count as nat,
            old(visiting)@,
            strict,
        ),
        final(visiting)@ == old(visiting)@,
    decreases scene.objects@.len() - old(visiting)@.len(),
{
    let found = scene.find(id);
    if found.is_none() {
        steps.push(MeshStep::Empty);
        assert(steps@ =~= old(steps)@ + seq![MeshStep::Empty]);
        return;
    }
    let object = &scene.objects[found.unwrap()];
    steps.push(MeshStep::Base(id));
    assert(steps@ =~= old(steps)@ + seq![MeshStep::Base(id)]);
    if contains(visiting, id) || visiting.len() >= scene.objects.len() {
        return;
    }
    visiting.push(id);
    let ghost start = steps@;
    let ghost inside = visiting@;
    let bound: usize = if count < object.modifiers.len() {
        count
    } else {
        object.modifiers.len()
    };
    let mut n: usize = 0;
    assert(start + stack_steps(
        scene.objects@,
        id,
        object.smooth,
        object.modifiers@,
        inside,
        strict,
        0,
    ) =~= start);
    while n < bound
        invariant
            n <= bound <= object.modifiers@.len(),
            old(visiting)@.len() < scene.objects@.len(),
            inside == old(visiting)@.push(id),
            visiting@ == inside,
            steps@ == start + stack_steps(
                scene.objects@,
                id,
                object.smooth,
                object.modifiers@,
                inside,
                strict,
                n as nat,
            ),
        decreases bound - n,
    {
        let m = object.modifiers[n];
        let ghost so_far = stack_steps(
            scene.objects@,
            id,
            object.smooth,
            object.modifiers@,
            inside,
            strict,
            n as nat,
        );
        if m.enabled {
            match m.kind {
                ModifierKind::Subdivision { levels } => {
                    if levels > 0 {
                        let step = MeshStep::Subdivide { levels, smooth: object.smooth };
                        steps.push(step);
                        assert(steps@ =~= start + so_far.push(step));
                    }
                },
                ModifierKind::Boolean { op, object: tool } => {
                    if tool != id && scene.contains(tool) {
                        plan_into(scene, tool, usize::MAX, steps, visiting, false);
                        let step = MeshStep::Combine { op, tool, target: id, strict };
                        let ghost sub = plan_steps(
                            scene.objects@,
                            tool,
                            usize::MAX as nat,
                            inside,
                            false,
                        );
                        assert(steps@ =~= start + (so_far + sub));
                        steps.push(step);
                        assert(steps@ =~= start + (so_far + sub).push(step));
                    }
                },
            }
        }
        n += 1;
    }
    visiting.pop();
    assert(visiting@ =~= old(visiting)@);
    assert(steps@ =~= old(steps)@ + plan_steps(
        scene.objects@,
        id,
        count as nat,
        old(visiting)@,
        strict,
    ));
}

/// The steps that evaluate the first `count` entries of the stack of `id`.
/// With `strict`, a boolean of that stack whose result is empty is refused.
pub fn evaluate_stack(scene: &Scene, id: ObjectId, count: usize, strict: bool) -> (r: Vec<
    MeshStep,
>)
    ensures
        r@ == plan_steps(scene.objects@, id, count as nat, seq![], strict),
{
    let mut steps: Vec<MeshStep> = Vec::new();
    let mut visiting: Vec<ObjectId> = Vec::new();
    assert(visiting@ =~= seq![]);
    plan_into(scene, id, count, &mut steps, &mut visiting, strict);
    assert(steps@ =~= plan_steps(scene.objects@, id, count as nat, seq![], strict));
    steps
}

/// The steps that make the mesh shown for an object: the base mesh with
/// every enabled modifier applied in stack order.
pub fn evaluate(scene: &Scene, id: ObjectId) -> (r: Vec<MeshStep>)
    ensures
        r@ == plan_steps(scene.objects@, id, usize::MAX as nat, seq![], false),
{
    evaluate_stack(scene, id, usize::MAX, false)
}

/// How many meshes are on the stack after the steps, from `depth` before
/// them; `None` if a step lacks one.
pub open spec fn depth_after(depth: nat, steps: Seq<MeshStep>) -> Option<nat>
    decreases steps.len(),
{
    if steps.len() == 0 {
        Some(depth)
    } else {
        match depth_after(depth, steps.drop_last()) {
            None => None,
            Some(d) => match steps.last() {
                MeshStep::Empty => Some(d + 1),
                MeshStep::Base(_) => Some(d + 1),
                MeshStep::Subdivide { .. } => if d >= 1 {
                    Some(d)
                } else {
                    None
                },
                MeshStep::Combine { .. } => if d >= 2 {
                    Some((d - 1) as nat)
                } else {
                    None
                },
            },
        }
    }
}

proof fn lemma_depth_joins(depth: nat, a: Seq<MeshStep>, b: Seq<MeshStep>)
    requires
        depth_after(depth, a) is Some,
    ensures
        depth_after(depth, a + b) == depth_after(depth_after(depth, a)->0, b),
    decreases b.len(),
{
    if b.len() == 0 {
        assert(a + b =~= a);
    } else {
        assert((a + b).drop_last() =~= a + b.drop_last());
        lemma_depth_joins(depth, a, b.drop_last());
    }
}

proof fn lemma_plan_depth(
    objects: Seq<Object>,
    id: ObjectId,
    count: nat,
    visiting: Seq<ObjectId>,
    strict: bool,
    depth: nat,
)
    ensures
        depth_after(depth, plan_steps(objects, id, count, visiting, strict)) == Some(depth + 1),
    decreases objects.len() - visiting.len(), 0nat,
{
    reveal_with_fuel(depth_after, 2);
    lemma_place_of(objects, id);
    match place_of(objects, id) {
        None => {
            assert(seq![MeshStep::Empty].drop_last() =~= seq![]);
        },
        Some(i) => {
            let base = seq![MeshStep::Base(id)];
            assert(base.drop_last() =~= seq![]);
            assert(depth_after(depth, base) == Some(depth + 1));
            if !visiting.contains(id) && visiting.len() < objects.len() {
                let stack = objects[i].modifiers@;
                let n = if count < stack.len() { count } else { stack.len() };
                lemma_stack_depth(
                    objects,
                    id,
                    objects[i].smooth,
                    stack,
                    visiting.push(id),
                    strict,
                    n,
                    depth + 1,
                );
                lemma_depth_joins(
                    depth,
                    base,
                    stack_steps(
                        objects,
                        id,
                        objects[i].smooth,
                        stack,
                        visiting.push(id),
                        strict,
                        n,
                    ),
                );
            }
        },
    }
}

proof fn lemma_stack_depth(
    objects: Seq<Object>,
    id: ObjectId,
    smooth: bool,
    stack: Seq<Modifier>,
    visiting: Seq<ObjectId>,
    strict: bool,
    n: nat,
    depth: nat,
)
    requires
        depth >= 1,
    ensures
        depth_after(depth, stack_steps(objects, id, smooth, stack, visiting, strict, n)) == Some(
            depth,
        ),
    decreases objects.len() - visiting.len(), n,
{
    if n > 0 {
        let before = stack_steps(objects, id, smooth, stack, visiting, strict, (n - 1) as nat);
        lemma_stack_depth(objects, id, smooth, stack, visiting, strict, (n - 1) as nat, depth);
        let m = stack[n - 1];
        if m.enabled {
            match m.kind {
                ModifierKind::Subdivision { levels } => {
                    let step = MeshStep::Subdivide { levels, smooth };
                    assert(before.push(step).drop_last() =~= before);
                },
                ModifierKind::Boolean { op, object } => {
                    if object != id && exists_in(objects, object) {
                        let sub = plan_steps(
                            objects,
                            object,
                            usize::MAX as nat,
                            visiting,
                            false,
                        );
                        lemma_plan_depth(
                            objects,
                            object,
                            usize::MAX as nat,
                            visiting,
                            false,
                            depth,
                        );
                        lemma_depth_joins(depth, before, sub);
                        let step = MeshStep::Combine { op, tool: object, target: id, strict };
                        assert((before + sub).push(step).drop_last() =~= before + sub);
                    }
                },
            }
        }
    }
}

/// Evaluating any object of any scene, reference cycles included, never
/// lacks a mesh and leaves exactly one.
pub proof fn law_plan_leaves_one_mesh(
    objects: Seq<Object>,
    id: ObjectId,
    count: nat,
    strict: bool,
)
    ensures
        depth_after(0, plan_steps(objects, id, count, seq![], strict)) == Some(1nat),
{
    lemma_plan_depth(objects, id, count, seq![], strict, 0);
}

/// An object without modifiers shows its base mesh.
pub proof fn law_no_modifiers_shows_base(objects: Seq<Object>, id: ObjectId)
    requires
        place_of(objects, id) matches Some(i) && objects[i].modifiers@.len() == 0,
    ensures
        plan_steps(objects, id, usize::MAX as nat, seq![], false) == seq![MeshStep::Base(id)],
{
    assert(plan_steps(objects, id, usize::MAX as nat, seq![], false) =~= seq![
        MeshStep::Base(id),
    ]);
}

/// What becomes of a boolean's result.
#[derive(Clone, Copy, PartialEq, Eq, Structural, Debug)]
pub enum Combined {
    /// The result takes the mesh's place.
    Taken,
    /// The mesh stays as it was.
    Skipped,
    /// The whole evaluation is refused.
    Refused,
}

/// An empty result is skipped, so that the object stays selectable, or
/// refused if the evaluation is strict.
pub fn judge_result(empty: bool, strict: bool) -> (r: Combined)
    ensures
        r == (if !empty {
            Combined::Taken
        } else if strict {
            Combined::Refused
        } else {
            Combined::Skipped
        }),
{
    if !empty {
        Combined::Taken
    } else if strict {
        Combined::Refused
    } else {
        Combined::Skipped
    }
}

/// What is said when a boolean against the tool of this name is refused.
pub fn refusal_message(tool_name: &str) -> (r: String)
    ensures
        r@ == "boolean against '"@ + tool_name@ + "' leaves nothing of the mesh"@,
{
    let mut s = join("boolean against '", tool_name);
    s.append("' leaves nothing of the mesh");
    s
}

/// Evaluating none of the stack gives the base mesh, and evaluating one more
/// entry goes on from where evaluating fewer ended: an entry comes after all
/// that stand before it in the stack, and no entry beyond the count takes
/// part. A disabled entry adds nothing, a subdivision its levels, if any; a
/// boolean first makes the mesh that its tool shows, with the whole stack of
/// the tool, and then combines with it.
pub proof fn law_modifiers_apply_in_stack_order(
    objects: Seq<Object>,
    id: ObjectId,
    i: int,
    n: nat,
    strict: bool,
)
    requires
        place_of(objects, id) == Some(i),
        n < objects[i].modifiers@.len(),
    ensures
        plan_steps(objects, id, 0, seq![], strict) == seq![MeshStep::Base(id)],
        ({
            let m = objects[i].modifiers@[n as int];
            let fewer = plan_steps(objects, id, n, seq![], strict);
            let more = plan_steps(objects, id, n + 1, seq![], strict);
            if !m.enabled {
                more == fewer
            } else {
                match m.kind {
                    ModifierKind::Subdivision { levels } => more == (if levels > 0 {
                        fewer.push(MeshStep::Subdivide { levels, smooth: objects[i].smooth })
                    } else {
                        fewer
                    }),
                    ModifierKind::Boolean { op, object } => more == (if object != id && exists_in(
                        objects,
                        object,
                    ) {
                        (fewer + plan_steps(
                            objects,
                            object,
                            usize::MAX as nat,
                            seq![id],
                            false,
                        )).push(MeshStep::Combine { op, tool: object, target: id, strict })
                    } else {
                        fewer
                    }),
                }
            }
        }),
        objects[i].modifiers@.len() <= usize::MAX ==> plan_steps(
            objects,
            id,
            usize::MAX as nat,
            seq![],
            strict,
        ) == plan_steps(objects, id, objects[i].modifiers@.len(), seq![], strict),
{
    lemma_place_of(objects, id);
    let none: Seq<ObjectId> = seq![];
    let stack = objects[i].modifiers@;
    let smooth = objects[i].smooth;
    assert(none.push(id) =~= seq![id]);
    let base = seq![MeshStep::Base(id)];
    let before = stack_steps(objects, id, smooth, stack, seq![id], strict, n);
    assert(base + stack_steps(objects, id, smooth, stack, seq![id], strict, 0) =~= base);
    let m = stack[n as int];
    assert(plan_steps(objects, id, n, none, strict) == base + before);
    let all = stack_steps(objects, id, smooth, stack, seq![id], strict, n + 1);
    assert(plan_steps(objects, id, n + 1, none, strict) == base + all);
    if m.enabled {
        match m.kind {
            ModifierKind::Subdivision { levels } => {
                let step = MeshStep::Subdivide { levels, smooth };
                assert(base + before.push(step) =~= (base + before).push(step));
            },
            ModifierKind::Boolean { op, object } => {
                let sub = plan_steps(objects, object, usize::MAX as nat, seq![id], false);
                let step = MeshStep::Combine { op, tool: object, target: id, strict };
                assert(base + (before + sub).push(step) =~= ((base + before) + sub).push(step));
            },
        }
    }
}

/// While a tool is evaluated, it shows what it would show by itself, unless
/// its own stack leads back to the object that uses it: a tool without
/// booleans is evaluated with all of its own stack, wherever it is used.
pub proof fn law_tools_show_their_own_stack(
    objects: Seq<Object>,
    tool: ObjectId,
    user: ObjectId,
    i: int,
    count: nat,
)
    requires
        place_of(objects, tool) == Some(i),
        exists_in(objects, user),
        tool != user,
        forall|k: int|
            0 <= k < objects[i].modifiers@.len() ==> !((#[trigger] objects[i].modifiers@[k]).kind
                is Boolean),
    ensures
        plan_steps(objects, tool, count, seq![user], false) == plan_steps(
            objects,
            tool,
            count,
            seq![],
            false,
        ),
        plan_steps(objects, user, count, seq![user], false) == seq![MeshStep::Base(user)],
{
    lemma_place_of(objects, tool);
    lemma_place_of(objects, user);
    let stack = objects[i].modifiers@;
    let n = if count < stack.len() {
        count
    } else {
        stack.len()
    };
    let none: Seq<ObjectId> = seq![];
    let one = seq![user];
    assert(one[0] == user);
    assert(one.contains(user));
    assert(one.no_duplicates());
    assert forall|k: int| 0 <= k < one.len() implies exists_in(objects, #[trigger] one[k]) by {}
    assert(exists_in(objects, tool)) by {
        assert(objects[i].id == tool);
    }
    law_visits_have_room(objects, one, tool);
    lemma_plain_stack(objects, tool, objects[i].smooth, stack, none.push(tool), one.push(tool), n);
}

proof fn lemma_plain_stack(
    objects: Seq<Object>,
    id: ObjectId,
    smooth: bool,
    stack: Seq<Modifier>,
    a: Seq<ObjectId>,
    b: Seq<ObjectId>,
    n: nat,
)
    requires
        n <= stack.len(),
        forall|k: int| 0 <= k < stack.len() ==> !((#[trigger] stack[k]).kind is Boolean),
    ensures
        stack_steps(objects, id, smooth, stack, a, false, n) == stack_steps(
            objects,
            id,
            smooth,
            stack,
            b,
            false,
            n,
        ),
    decreases n,
{
    if n > 0 {
        lemma_plain_stack(objects, id, smooth, stack, a, b, (n - 1) as nat);
        assert(!(stack[n - 1].kind is Boolean));
    }
}

/// The fingerprint begins with what the mesh of the object itself depends on,
/// and every enabled entry of the stack adds its part, in order: a subdivision
/// its levels; a boolean its operation, its tool, where both objects are, and
/// all that the tool depends on. A disabled entry adds nothing.
pub proof fn law_fingerprints_follow_the_stack(
    objects: Seq<Object>,
    worlds: Seq<Transform>,
    id: ObjectId,
    stack: Seq<Modifier>,
    visiting: Seq<ObjectId>,
    n: nat,
)
    requires
        n < stack.len(),
    ensures
        ({
            let m = stack[n as int];
            let fewer = stack_words(objects, worlds, id, stack, visiting, n);
            let more = stack_words(objects, worlds, id, stack, visiting, n + 1);
            &&& fewer.is_prefix_of(more)
            &&& !m.enabled ==> more == fewer
            &&& m.enabled && m.kind is Subdivision ==> more.skip(fewer.len() as int) == seq![
                1u64,
                m.kind->levels as u64,
            ]
            &&& m.enabled && m.kind is Boolean ==> {
                let tool = m.kind->object;
                more.skip(fewer.len() as int) == seq![2u64, op_word(m.kind->op), tool.0]
                    + transform_words(world_of(objects, worlds, id)) + transform_words(
                    world_of(objects, worlds, tool),
                ) + stamp_words(objects, worlds, tool, visiting)
            }
        }),
        op_word(BooleanOp::Union) != op_word(BooleanOp::Subtract),
        op_word(BooleanOp::Union) != op_word(BooleanOp::Intersect),
        op_word(BooleanOp::Subtract) != op_word(BooleanOp::Intersect),
        place_of(objects, id) matches Some(i) ==> own_words(objects[i]).is_prefix_of(
            stamp_words(objects, worlds, id, visiting),
        ) && own_words(objects[i])[0] == objects[i].mesh_revision && (own_words(objects[i])[1]
            == 1) == objects[i].smooth && own_words(objects[i]).skip(2) == primitive_words(
            objects[i].primitive,
        ),
{
    let m = stack[n as int];
    let fewer = stack_words(objects, worlds, id, stack, visiting, n);
    let more = stack_words(objects, worlds, id, stack, visiting, n + 1);
    if m.enabled {
        match m.kind {
            ModifierKind::Subdivision { levels } => {
                assert(more.skip(fewer.len() as int) =~= seq![1u64, levels as u64]);
            },
            ModifierKind::Boolean { op, object } => {
                assert(more.skip(fewer.len() as int) =~= seq![2u64, op_word(op), object.0]
                    + transform_words(world_of(objects, worlds, id)) + transform_words(
                    world_of(objects, worlds, object),
                ) + stamp_words(objects, worlds, object, visiting));
            },
        }
    }
    if let Some(i) = place_of(objects, id) {
        assert(own_words(objects[i]).skip(2) =~= primitive_words(objects[i].primitive));
    }
}

} // verus!
