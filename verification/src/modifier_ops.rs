//! Operations on modifier stacks: adding booleans, applying, removing, and
//! setting the subdivision level.

use vstd::prelude::*;
use crate::scene::{
    exists_in, ids_distinct, lemma_place_of, place_of, BooleanOp, Handle, Modifier, ModifierKind,
    Object, ObjectId, Primitive, Scene,
};
use crate::selection::contains;
use crate::text::{decimal, join, lowercased, push_decimal, to_lowercase};

verus! {

/// Lights, empties and ropes have no volume to combine.
pub open spec fn has_no_volume(p: Primitive) -> bool {
    p is Light || p is Empty || p is Rope
}

fn no_volume(p: &Primitive) -> (r: bool)
    ensures
        r == has_no_volume(*p),
{
    matches!(p, Primitive::Light { .. } | Primitive::Empty { .. } | Primitive::Rope { .. })
}

/// The modifier is a boolean with this tool.
pub open spec fn uses_tool(m: Modifier, tool: ObjectId) -> bool {
    m.kind matches ModifierKind::Boolean { object, .. } && object == tool
}

/// Some entry of the stack uses the tool.
pub open spec fn stack_uses(stack: Seq<Modifier>, tool: ObjectId) -> bool {
    exists|k: int| 0 <= k < stack.len() && uses_tool(#[trigger] stack[k], tool)
}

/// Some object's stack uses the tool.
pub open spec fn referenced(objects: Seq<Object>, tool: ObjectId) -> bool {
    exists|i: int| 0 <= i < objects.len() && stack_uses((#[trigger] objects[i]).modifiers@, tool)
}

fn does_use(stack: &Vec<Modifier>, tool: ObjectId) -> (r: bool)
    ensures
        r == stack_uses(stack@, tool),
{
    let mut k: usize = 0;
    while k < stack.len()
        invariant
            k <= stack@.len(),
            forall|j: int| 0 <= j < k ==> !uses_tool(#[trigger] stack@[j], tool),
        decreases stack@.len() - k,
    {
        let m = stack[k];
        if let ModifierKind::Boolean { op, object } = m.kind {
            if object == tool {
                assert(uses_tool(stack@[k as int], tool));
                return true;
            }
        }
        assert(!uses_tool(stack@[k as int], tool));
        k += 1;
    }
    false
}

/// Is the object the tool of a boolean in any object's stack?
pub fn tool_referenced(scene: &Scene, tool: ObjectId) -> (r: bool)
    ensures
        r == referenced(scene.objects@, tool),
{
    let mut i: usize = 0;
    while i < scene.objects.len()
        invariant
            i <= scene.objects@.len(),
            forall|j: int|
                0 <= j < i ==> !stack_uses((#[trigger] scene.objects@[j]).modifiers@, tool),
        decreases scene.objects@.len() - i,
    {
        if does_use(&scene.objects[i].modifiers, tool) {
            assert(stack_uses(scene.objects@[i as int].modifiers@, tool));
            return true;
        }
        i += 1;
    }
    false
}

/// What is said of an object without volume.
pub open spec fn no_volume_message(name: Seq<char>) -> Seq<char> {
    "'"@ + name + "' is a light/empty — it has no volume to combine"@
}

/// What is wrong with one tool, if anything.
pub open spec fn tool_error(objects: Seq<Object>, target: ObjectId, tool: ObjectId) -> Option<
    Seq<char>,
> {
    if tool == target {
        Some("the target cannot be one of the tools"@)
    } else {
        match place_of(objects, tool) {
            None => Some("no tool object with id "@ + decimal(tool.0 as nat)),
            Some(i) => if has_no_volume(objects[i].primitive) {
                Some(no_volume_message(objects[i].name@))
            } else {
                None
            },
        }
    }
}

/// What is wrong with the first tool, among the first `n`, that anything is
/// wrong with.
pub open spec fn first_error(
    objects: Seq<Object>,
    target: ObjectId,
    tools: Seq<ObjectId>,
    n: nat,
) -> Option<Seq<char>>
    decreases n,
{
    if n == 0 {
        None
    } else if first_error(objects, target, tools, (n - 1) as nat) is Some {
        first_error(objects, target, tools, (n - 1) as nat)
    } else {
        tool_error(objects, target, tools[n - 1])
    }
}

/// The first `n` tools, each once.
pub open spec fn each_once(tools: Seq<ObjectId>, n: nat) -> Seq<ObjectId>
    decreases n,
{
    if n == 0 {
        seq![]
    } else {
        let before = each_once(tools, (n - 1) as nat);
        if before.contains(tools[n - 1]) {
            before
        } else {
            before.push(tools[n - 1])
        }
    }
}

/// Why booleans cannot be added, if they cannot.
pub open spec fn boolean_error(
    objects: Seq<Object>,
    target: ObjectId,
    tools: Seq<ObjectId>,
) -> Option<Seq<char>> {
    match place_of(objects, target) {
        None => Some("no such target object"@),
        Some(i) => if has_no_volume(objects[i].primitive) {
            Some(no_volume_message(objects[i].name@))
        } else if first_error(objects, target, tools, tools.len()) is Some {
            first_error(objects, target, tools, tools.len())
        } else if tools.len() == 0 {
            Some("no tool objects given"@)
        } else {
            None
        },
    }
}

/// `new` is `old` with the tools hidden and a boolean for each of them at
/// the end of the target's stack.
pub open spec fn booleans_added(
    old: Seq<Object>,
    new: Seq<Object>,
    target: ObjectId,
    tools: Seq<ObjectId>,
    op: BooleanOp,
) -> bool {
    &&& new.len() == old.len()
    &&& forall|i: int|
        #![trigger new[i]]
        0 <= i < old.len() ==> {
            if old[i].id == target {
                &&& new[i] == (Object { modifiers: new[i].modifiers, ..old[i] })
                &&& new[i].modifiers@ == old[i].modifiers@ + Seq::new(
                    tools.len(),
                    |k: int|
                        Modifier {
                            kind: ModifierKind::Boolean { op, object: tools[k] },
                            enabled: true,
                        },
                )
            } else if tools.contains(old[i].id) {
                new[i] == (Object { visible: false, ..old[i] })
            } else {
                new[i] == old[i]
            }
        }
}

/// `s` where there is more than one, nothing for one.
pub open spec fn plural(count: nat) -> Seq<char> {
    if count == 1 {
        ""@
    } else {
        "s"@
    }
}

pub(crate) fn push_plural(s: &mut String, count: usize)
    ensures
        final(s)@ == old(s)@ + plural(count as nat),
{
    if count == 1 {
        s.append("");
    } else {
        s.append("s");
    }
}

/// What is said when booleans were added.
pub open spec fn added_message(count: nat, label: Seq<char>, name: Seq<char>) -> Seq<char> {
    "added "@ + decimal(count) + " "@ + lowercased(label) + " modifier"@ + plural(count) + " to '"@
        + name + "' — tool"@ + plural(count)
        + " hidden; preview is live, Apply from the sidebar"@
}

fn message_of_volume(name: &str) -> (r: String)
    ensures
        r@ == no_volume_message(name@),
{
    let mut s = join("'", name);
    s.append("' is a light/empty — it has no volume to combine");
    s
}

proof fn lemma_each_once(tools: Seq<ObjectId>, n: nat)
    requires
        n <= tools.len(),
    ensures
        each_once(tools, n).len() <= n,
        n > 0 ==> each_once(tools, n).len() > 0,
        each_once(tools, n).no_duplicates(),
        forall|i: int| 0 <= i < n ==> each_once(tools, n).contains(#[trigger] tools[i]),
        forall|k: int|
            0 <= k < each_once(tools, n).len() ==> tools.contains(#[trigger] each_once(tools, n)[k]),
    decreases n,
{
    if n > 0 {
        lemma_each_once(tools, (n - 1) as nat);
        let before = each_once(tools, (n - 1) as nat);
        let now = each_once(tools, n);
        let t = tools[n - 1];
        assert(tools.contains(t));
        assert forall|i: int| 0 <= i < n implies now.contains(#[trigger] tools[i]) by {
            if i < n - 1 {
                let k = choose|k: int| 0 <= k < before.len() && before[k] == tools[i];
                assert(now[k] == tools[i]);
            } else if !before.contains(t) {
                assert(now[before.len() as int] == t);
            }
        }
        assert forall|k: int| 0 <= k < now.len() implies tools.contains(#[trigger] now[k]) by {
            if k < before.len() {
                assert(now[k] == before[k]);
            }
        }
    }
}

proof fn lemma_first_error(objects: Seq<Object>, target: ObjectId, tools: Seq<ObjectId>, n: nat)
    requires
        first_error(objects, target, tools, n) is None,
        n <= tools.len(),
    ensures
        forall|i: int| 0 <= i < n ==> (#[trigger] tools[i]) != target && exists_in(
            objects,
            tools[i],
        ),
    decreases n,
{
    if n > 0 {
        lemma_first_error(objects, target, tools, (n - 1) as nat);
        lemma_place_of(objects, tools[n - 1]);
    }
}

fn check_tool(scene: &Scene, target: ObjectId, tool: ObjectId) -> (r: Option<String>)
    ensures
        r is Some == tool_error(scene.objects@, target, tool) is Some,
        r matches Some(e) ==> e@ == tool_error(scene.objects@, target, tool)->0,
{
    if tool == target {
        return Some("the target cannot be one of the tools".to_owned());
    }
    match scene.find(tool) {
        None => {
            let mut s = "no tool object with id ".to_owned();
            push_decimal(&mut s, tool.0);
            Some(s)
        },
        Some(i) => {
            if no_volume(&scene.objects[i].primitive) {
                Some(message_of_volume(scene.objects[i].name.as_str()))
            } else {
                None
            }
        },
    }
}

/// Adds a boolean to `target` for each tool object. The tools stay in the
/// scene but are hidden, so that the preview is visible. Returns a status
/// message, or an error without touching anything. `label` names the
/// operation.
pub fn add_boolean(
    scene: &mut Scene,
    target: ObjectId,
    tools: &Vec<ObjectId>,
    op: BooleanOp,
    label: &str,
) -> (r: Result<String, String>)
    requires
        old(scene).wf(),
    ensures
        final(scene).wf(),
        final(scene).folders == old(scene).folders,
        final(scene).next_id == old(scene).next_id,
        match boolean_error(old(scene).objects@, target, tools@) {
            Some(e) => {
                &&& r is Err
                &&& r->Err_0@ == e
                &&& *final(scene) == *old(scene)
            },
            None => {
                let distinct = each_once(tools@, tools@.len());
                let name = old(scene).objects@[place_of(old(scene).objects@, target)->0].name@;
                &&& r is Ok
                &&& r->Ok_0@ == added_message(distinct.len(), label@, name)
                &&& booleans_added(
                    old(scene).objects@,
                    final(scene).objects@,
                    target,
                    distinct,
                    op,
                )
            },
        },
{
    let at = match scene.find(target) {
        None => return Err("no such target object".to_owned()),
        Some(i) => i,
    };
    if no_volume(&scene.objects[at].primitive) {
        return Err(message_of_volume(scene.objects[at].name.as_str()));
    }
    let mut distinct: Vec<ObjectId> = Vec::new();
    let mut n: usize = 0;
    while n < tools.len()
        invariant
            n <= tools@.len(),
            *scene == *old(scene),
            old(scene).wf(),
            at < scene.objects@.len(),
            place_of(scene.objects@, target) == Some(at as int),
            !has_no_volume(scene.objects@[at as int].primitive),
            first_error(scene.objects@, target, tools@, n as nat) is None,
            distinct@ == each_once(tools@, n as nat),
        decreases tools@.len() - n,
    {
        let tool = tools[n];
        let problem = check_tool(scene, target, tool);
        if let Some(e) = problem {
            proof {
                lemma_error_sticks(scene.objects@, target, tools@, (n + 1) as nat, tools@.len());
            }
            return Err(e);
        }
        if !contains(&distinct, tool) {
            distinct.push(tool);
        }
        n += 1;
    }
    if tools.len() == 0 {
        return Err("no tool objects given".to_owned());
    }
    proof {
        lemma_each_once(tools@, tools@.len());
        lemma_first_error(scene.objects@, target, tools@, tools@.len());
        lemma_place_of(scene.objects@, target);
        assert forall|k: int| 0 <= k < distinct@.len() implies (#[trigger] distinct@[k])
            != target by {
            assert(tools@.contains(distinct@[k]));
            let j = choose|j: int| 0 <= j < tools@.len() && tools@[j] == distinct@[k];
            assert(tools@[j] != target);
        }
        assert(!distinct@.contains(target));
    }
    let ghost before = scene.objects@;
    let mut i: usize = 0;
    while i < scene.objects.len()
        invariant
            i <= scene.objects@.len(),
            scene.objects@.len() == before.len(),
            scene.folders == old(scene).folders,
            scene.next_id == old(scene).next_id,
            before == old(scene).objects@,
            forall|k: int|
                #![trigger scene.objects@[k]]
                0 <= k < before.len() ==> scene.objects@[k] == if k < i && distinct@.contains(
                    before[k].id,
                ) {
                    Object { visible: false, ..before[k] }
                } else {
                    before[k]
                },
        decreases scene.objects@.len() - i,
    {
        let id = scene.objects[i].id;
        assert(scene.objects@[i as int] == before[i as int]);
        if contains(&distinct, id) {
            scene.objects[i].visible = false;
        }
        i += 1;
    }
    let ghost hidden = scene.objects@;
    assert(hidden[at as int] == before[at as int]);
    let ghost stack = before[at as int].modifiers@;
    let mut k: usize = 0;
    assert(stack =~= stack + Seq::new(
        0,
        |k: int|
            Modifier { kind: ModifierKind::Boolean { op, object: distinct@[k] }, enabled: true },
    ));
    while k < distinct.len()
        invariant
            k <= distinct@.len(),
            at < before.len(),
            scene.objects@.len() == before.len(),
            scene.folders == old(scene).folders,
            scene.next_id == old(scene).next_id,
            hidden.len() == before.len(),
            hidden[at as int] == before[at as int],
            stack == before[at as int].modifiers@,
            forall|j: int|
                #![trigger scene.objects@[j]]
                0 <= j < before.len() && j != at ==> scene.objects@[j] == hidden[j],
            scene.objects@[at as int] == (Object {
                modifiers: scene.objects@[at as int].modifiers,
                ..before[at as int]
            }),
            scene.objects@[at as int].modifiers@ == stack + Seq::new(
                k as nat,
                |k: int|
                    Modifier {
                        kind: ModifierKind::Boolean { op, object: distinct@[k] },
                        enabled: true,
                    },
            ),
        decreases distinct@.len() - k,
    {
        let m = Modifier::new(ModifierKind::Boolean { op, object: distinct[k] });
        scene.objects[at].modifiers.push(m);
        k += 1;
        assert(scene.objects@[at as int].modifiers@ =~= stack + Seq::new(
            k as nat,
            |k: int|
                Modifier {
                    kind: ModifierKind::Boolean { op, object: distinct@[k] },
                    enabled: true,
                },
        ));
    }
    proof {
        let now = scene.objects@;
        assert forall|j: int| 0 <= j < now.len() implies (#[trigger] now[j]).id
            == before[j].id by {
            assert(hidden[j].id == before[j].id);
        }
        assert forall|j: int| #![trigger now[j]] 0 <= j < before.len() && j != at implies
            before[j].id != target by {
            if j < at {
                assert(before[j].id != before[at as int].id);
            } else {
                assert(before[at as int].id != before[j].id);
            }
        }
        assert forall|a: int, b: int| 0 <= a < b < now.len() implies (#[trigger] now[a]).id != (
        #[trigger] now[b]).id by {
            assert(before[a].id != before[b].id);
        }
        assert forall|j: int| 0 <= j < now.len() implies (#[trigger] now[j]).id.0
            < scene.next_id by {
            assert(before[j].id.0 < scene.next_id);
        }
    }
    let count = distinct.len();
    let mut s = "added ".to_owned();
    push_decimal(&mut s, count as u64);
    s.append(" ");
    s.append(to_lowercase(label).as_str());
    s.append(" modifier");
    push_plural(&mut s, count);
    s.append(" to '");
    s.append(scene.objects[at].name.as_str());
    s.append("' — tool");
    push_plural(&mut s, count);
    s.append(" hidden; preview is live, Apply from the sidebar");
    Ok(s)
}

proof fn lemma_error_sticks(
    objects: Seq<Object>,
    target: ObjectId,
    tools: Seq<ObjectId>,
    n: nat,
    m: nat,
)
    requires
        n <= m,
        first_error(objects, target, tools, n) is Some,
    ensures
        first_error(objects, target, tools, m) == first_error(objects, target, tools, n),
    decreases m,
{
    if n < m {
        lemma_error_sticks(objects, target, tools, n, (m - 1) as nat);
    }
}

/// What evaluating a stack came to.
#[derive(Debug)]
pub enum Evaluated {
    /// A mesh, kept by the caller.
    Mesh { handle: Handle, empty: bool },
    /// A boolean left nothing, with what is said of it.
    Refused(String),
}

/// The tools that are consumed when `applied` were applied to `id`: each
/// tool of an enabled boolean, in turn, that nothing references any more.
/// Yields the objects that are left and how many went.
pub open spec fn consume(objects: Seq<Object>, id: ObjectId, applied: Seq<Modifier>, n: nat) -> (
    Seq<Object>,
    nat,
)
    decreases n,
{
    if n == 0 {
        (objects, 0)
    } else {
        let (left, gone) = consume(objects, id, applied, (n - 1) as nat);
        let m = applied[n - 1];
        match m.kind {
            ModifierKind::Boolean { object, .. } => if m.enabled && object != id && exists_in(
                left,
                object,
            ) && !referenced(left, object) {
                (left.remove(place_of(left, object)->0), gone + 1)
            } else {
                (left, gone)
            },
            _ => (left, gone),
        }
    }
}

/// How many of the first `n` entries are enabled.
pub open spec fn enabled_count(stack: Seq<Modifier>, n: nat) -> nat
    decreases n,
{
    if n == 0 {
        0
    } else {
        enabled_count(stack, (n - 1) as nat) + if stack[n - 1].enabled {
            1nat
        } else {
            0
        }
    }
}

/// `new` is `old` with the mesh baked into the object at `i` and the first
/// `count` entries of its stack dropped.
pub open spec fn baked(
    old: Seq<Object>,
    new: Seq<Object>,
    i: int,
    count: nat,
    handle: Handle,
) -> bool {
    &&& new.len() == old.len()
    &&& forall|j: int| 0 <= j < old.len() && j != i ==> #[trigger] new[j] == old[j]
    &&& new[i] == (Object {
        modifiers: new[i].modifiers,
        edited_mesh: Some(handle),
        mesh_revision: (old[i].mesh_revision + 1) as u64,
        ..old[i]
    })
    &&& new[i].modifiers@ == old[i].modifiers@.skip(count as int)
}

/// How many entries are taken off the stack when `count` are asked for.
pub open spec fn entries_taken(stack: Seq<Modifier>, count: nat) -> nat {
    if count < stack.len() {
        count
    } else {
        stack.len()
    }
}

/// What is said when a stack was applied.
pub open spec fn applied_message(enabled: nat, name: Seq<char>, consumed: nat) -> Seq<char> {
    let head = "applied "@ + decimal(enabled) + " modifier"@ + plural(enabled) + " to '"@ + name
        + "'"@;
    if consumed > 0 {
        head + " — "@ + decimal(consumed) + " tool object"@ + plural(consumed) + " consumed"@
    } else {
        head
    }
}

/// How much of the stack is applied, and why not, if not.
pub open spec fn apply_error(
    objects: Seq<Object>,
    id: ObjectId,
    count: nat,
    evaluated: Evaluated,
) -> Option<Seq<char>> {
    match place_of(objects, id) {
        None => Some("no such object"@),
        Some(i) => if count == 0 || objects[i].modifiers@.len() == 0 {
            Some("no modifiers to apply"@)
        } else {
            match evaluated {
                Evaluated::Refused(e) => Some(e@ + " — not applied"@),
                Evaluated::Mesh { empty, .. } => if empty {
                    Some("modifier result is empty (nothing would remain) — not applied"@)
                } else {
                    None
                },
            }
        },
    }
}

fn consume_tools(scene: &mut Scene, id: ObjectId, applied: &Vec<Modifier>) -> (consumed: usize)
    requires
        old(scene).wf(),
    ensures
        final(scene).wf(),
        final(scene).folders == old(scene).folders,
        final(scene).next_id == old(scene).next_id,
        final(scene).objects@ == consume(
            old(scene).objects@,
            id,
            applied@,
            applied@.len(),
        ).0,
        consumed == consume(old(scene).objects@, id, applied@, applied@.len()).1,
{
    let mut consumed: usize = 0;
    let mut n: usize = 0;
    while n < applied.len()
        invariant
            n <= applied@.len(),
            consumed <= n,
            scene.wf(),
            scene.folders == old(scene).folders,
            scene.next_id == old(scene).next_id,
            scene.objects@ == consume(old(scene).objects@, id, applied@, n as nat).0,
            consumed == consume(old(scene).objects@, id, applied@, n as nat).1,
        decreases applied@.len() - n,
    {
        let m = applied[n];
        if let ModifierKind::Boolean { op, object: tool } = m.kind {
            if m.enabled && tool != id && scene.contains(tool) && !tool_referenced(scene, tool) {
                scene.remove_object(tool);
                consumed += 1;
            }
        }
        n += 1;
    }
    consumed
}

fn count_enabled(stack: &Vec<Modifier>) -> (r: usize)
    ensures
        r == enabled_count(stack@, stack@.len()),
{
    let mut r: usize = 0;
    let mut n: usize = 0;
    while n < stack.len()
        invariant
            n <= stack@.len(),
            r <= n,
            r == enabled_count(stack@, n as nat),
        decreases stack@.len() - n,
    {
        if stack[n].enabled {
            r += 1;
        }
        n += 1;
    }
    r
}

/// Bakes the first `count` stack entries into the object's edited mesh and
/// drops them from the stack. `evaluated` is what evaluating them strictly
/// came to. Tools of applied booleans are consumed when nothing references
/// them any more. Refuses, changing nothing, when the result is empty.
pub fn apply(scene: &mut Scene, id: ObjectId, count: usize, evaluated: Evaluated) -> (r: Result<
    String,
    String,
>)
    requires
        old(scene).wf(),
        old(scene).has(id) ==> old(scene).objects@[place_of(
            old(scene).objects@,
            id,
        )->0].mesh_revision < u64::MAX,
    ensures
        final(scene).wf(),
        final(scene).folders == old(scene).folders,
        final(scene).next_id == old(scene).next_id,
        match apply_error(old(scene).objects@, id, count as nat, evaluated) {
            Some(e) => {
                &&& r is Err
                &&& r->Err_0@ == e
                &&& *final(scene) == *old(scene)
            },
            None => {
                let i = place_of(old(scene).objects@, id)->0;
                let stack = old(scene).objects@[i].modifiers@;
                let taken = entries_taken(stack, count as nat);
                let applied = stack.take(taken as int);
                exists|mid: Seq<Object>| {
                    &&& #[trigger] baked(old(scene).objects@, mid, i, taken, evaluated->handle)
                    &&& final(scene).objects@ == consume(mid, id, applied, applied.len()).0
                    &&& r is Ok
                    &&& r->Ok_0@ == applied_message(
                        enabled_count(applied, applied.len()),
                        old(scene).objects@[i].name@,
                        consume(mid, id, applied, applied.len()).1,
                    )
                }
            },
        },
{
    let at = match scene.find(id) {
        None => return Err("no such object".to_owned()),
        Some(i) => i,
    };
    let taken: usize = if count < scene.objects[at].modifiers.len() {
        count
    } else {
        scene.objects[at].modifiers.len()
    };
    if taken == 0 {
        return Err("no modifiers to apply".to_owned());
    }
    let handle = match evaluated {
        Evaluated::Refused(e) => return Err(join(e.as_str(), " — not applied")),
        Evaluated::Mesh { handle, empty } => {
            if empty {
                return Err(
                    "modifier result is empty (nothing would remain) — not applied".to_owned(),
                );
            }
            handle
        },
    };
    let name = scene.objects[at].name.clone();
    let ghost before = scene.objects@;
    let ghost stack = before[at as int].modifiers@;
    let mut rest = scene.objects[at].modifiers.split_off(taken);
    std::mem::swap(&mut scene.objects[at].modifiers, &mut rest);
    let applied = rest;
    scene.objects[at].edited_mesh = Some(handle);
    scene.objects[at].mesh_revision = scene.objects[at].mesh_revision + 1;
    let ghost mid = scene.objects@;
    proof {
        assert(applied@ =~= stack.take(taken as int));
        assert(mid[at as int].modifiers@ =~= stack.skip(taken as int));
        assert(taken == entries_taken(stack, count as nat));
        assert(baked(before, mid, at as int, taken as nat, handle));
        assert forall|j: int| 0 <= j < mid.len() implies (#[trigger] mid[j]).id
            == before[j].id by {}
        assert forall|a: int, b: int| 0 <= a < b < mid.len() implies (#[trigger] mid[a]).id != (
        #[trigger] mid[b]).id by {
            assert(before[a].id != before[b].id);
        }
        assert forall|j: int| 0 <= j < mid.len() implies (#[trigger] mid[j]).id.0
            < scene.next_id by {
            assert(before[j].id.0 < scene.next_id);
        }
    }
    let consumed = consume_tools(scene, id, &applied);
    let enabled = count_enabled(&applied);
    let mut s = "applied ".to_owned();
    push_decimal(&mut s, enabled as u64);
    s.append(" modifier");
    push_plural(&mut s, enabled);
    s.append(" to '");
    s.append(name.as_str());
    s.append("'");
    if consumed > 0 {
        s.append(" — ");
        push_decimal(&mut s, consumed as u64);
        s.append(" tool object");
        push_plural(&mut s, consumed);
        s.append(" consumed");
    }
    Ok(s)
}

/// The stack of the object at `j` once entry `index` of the stack of the
/// object at `i` is gone.
pub open spec fn stack_left(objects: Seq<Object>, i: int, index: int, j: int) -> Seq<Modifier> {
    if j == i {
        objects[j].modifiers@.remove(index)
    } else {
        objects[j].modifiers@
    }
}

/// Some stack still uses the tool once the entry is gone.
pub open spec fn still_used(objects: Seq<Object>, i: int, index: int, tool: ObjectId) -> bool {
    exists|j: int|
        0 <= j < objects.len() && stack_uses(#[trigger] stack_left(objects, i, index, j), tool)
}

/// The removed entry was a boolean, and nothing uses its tool any more.
pub open spec fn frees_tool(objects: Seq<Object>, i: int, index: int, id: ObjectId) -> bool {
    uses_tool(objects[i].modifiers@[index], id) && !still_used(objects, i, index, id)
}

/// `new` is `old` without the entry, and with the tool that it frees shown.
pub open spec fn entry_removed(old: Seq<Object>, new: Seq<Object>, i: int, index: int) -> bool {
    &&& new.len() == old.len()
    &&& forall|j: int|
        #![trigger new[j]]
        0 <= j < old.len() ==> {
            &&& new[j] == (Object {
                modifiers: new[j].modifiers,
                visible: old[j].visible || frees_tool(old, i, index, old[j].id),
                ..old[j]
            })
            &&& new[j].modifiers@ == stack_left(old, i, index, j)
        }
}

/// Removes one stack entry. A boolean's tool is shown again when nothing
/// references it any more. `label` names the kind of the entry.
pub fn remove(scene: &mut Scene, id: ObjectId, index: usize, label: &str) -> (r: Result<
    String,
    String,
>)
    requires
        old(scene).wf(),
    ensures
        final(scene).wf(),
        final(scene).folders == old(scene).folders,
        final(scene).next_id == old(scene).next_id,
        match place_of(old(scene).objects@, id) {
            None => {
                &&& r is Err
                &&& r->Err_0@ == "no such object"@
                &&& *final(scene) == *old(scene)
            },
            Some(i) => if index >= old(scene).objects@[i].modifiers@.len() {
                &&& r is Err
                &&& r->Err_0@ == "no modifier at index "@ + decimal(index as nat)
                &&& *final(scene) == *old(scene)
            } else {
                &&& r is Ok
                &&& r->Ok_0@ == "removed "@ + lowercased(label@) + " modifier from '"@ + old(
                    scene,
                ).objects@[i].name@ + "'"@
                &&& entry_removed(
                    old(scene).objects@,
                    final(scene).objects@,
                    i,
                    index as int,
                )
            },
        },
{
    let at = match scene.find(id) {
        None => return Err("no such object".to_owned()),
        Some(i) => i,
    };
    if index >= scene.objects[at].modifiers.len() {
        let mut s = "no modifier at index ".to_owned();
        push_decimal(&mut s, index as u64);
        return Err(s);
    }
    let ghost before = scene.objects@;
    let removed = scene.objects[at].modifiers.remove(index);
    let ghost mid = scene.objects@;
    proof {
        assert forall|j: int| 0 <= j < mid.len() implies (#[trigger] mid[j]).modifiers@
            == stack_left(before, at as int, index as int, j) && mid[j] == (Object {
            modifiers: mid[j].modifiers,
            ..before[j]
        }) by {}
        assert forall|tool: ObjectId| #[trigger] referenced(mid, tool) == still_used(
            before,
            at as int,
            index as int,
            tool,
        ) by {
            if referenced(mid, tool) {
                let j = choose|j: int|
                    0 <= j < mid.len() && stack_uses((#[trigger] mid[j]).modifiers@, tool);
                assert(stack_uses(stack_left(before, at as int, index as int, j), tool));
            }
            if still_used(before, at as int, index as int, tool) {
                let j = choose|j: int|
                    0 <= j < before.len() && stack_uses(
                        #[trigger] stack_left(before, at as int, index as int, j),
                        tool,
                    );
                assert(stack_uses(mid[j].modifiers@, tool));
            }
        }
    }
    if let ModifierKind::Boolean { op, object: tool } = removed.kind {
        let used = tool_referenced(scene, tool);
        if !used {
            if let Some(t) = scene.find(tool) {
                scene.objects[t].visible = true;
                proof {
                    let now = scene.objects@;
                    assert forall|j: int| 0 <= j < now.len() && j != t implies before[j].id
                        != tool by {
                        assert(mid[j].id == before[j].id && mid[t as int].id == before[t as int].id);
                        if j < t {
                            assert(before[j].id != before[t as int].id);
                        } else {
                            assert(before[t as int].id != before[j].id);
                        }
                    }
                }
            } else {
                proof {
                    assert forall|j: int| 0 <= j < before.len() implies (#[trigger] before[j]).id
                        != tool by {
                        assert(mid[j].id == before[j].id);
                    }
                }
            }
        }
    }
    proof {
        let now = scene.objects@;
        assert forall|j: int| 0 <= j < now.len() implies (#[trigger] now[j]).id
            == before[j].id by {
            assert(mid[j].id == before[j].id);
        }
        assert forall|a: int, b: int| 0 <= a < b < now.len() implies (#[trigger] now[a]).id != (
        #[trigger] now[b]).id by {
            assert(before[a].id != before[b].id);
        }
        assert forall|j: int| 0 <= j < now.len() implies (#[trigger] now[j]).id.0
            < scene.next_id by {
            assert(before[j].id.0 < scene.next_id);
        }
        assert(entry_removed(before, now, at as int, index as int));
    }
    let mut s = "removed ".to_owned();
    s.append(to_lowercase(label).as_str());
    s.append(" modifier from '");
    s.append(scene.objects[at].name.as_str());
    s.append("'");
    Ok(s)
}

/// Adding a boolean and removing it again leaves every object as it was, if
/// the tool was visible and nothing used it.
pub proof fn law_remove_undoes_add(
    old: Seq<Object>,
    mid: Seq<Object>,
    new: Seq<Object>,
    i: int,
    tool: ObjectId,
    op: BooleanOp,
)
    requires
        ids_distinct(old),
        0 <= i < old.len(),
        old[i].id != tool,
        !referenced(old, tool),
        forall|j: int| 0 <= j < old.len() && (#[trigger] old[j]).id == tool ==> old[j].visible,
        booleans_added(old, mid, old[i].id, seq![tool], op),
        entry_removed(mid, new, i, old[i].modifiers@.len() as int),
    ensures
        new.len() == old.len(),
        forall|j: int|
            #![trigger new[j]]
            0 <= j < old.len() ==> new[j] == (Object { modifiers: new[j].modifiers, ..old[j] })
                && new[j].modifiers@ == old[j].modifiers@,
{
    let index = old[i].modifiers@.len() as int;
    let added = Modifier { kind: ModifierKind::Boolean { op, object: tool }, enabled: true };
    assert(seq![tool][0] == tool);
    assert(mid[i].modifiers@ =~= old[i].modifiers@.push(added));
    assert(mid[i].modifiers@[index] == added);
    assert(mid[i].modifiers@.remove(index) =~= old[i].modifiers@);
    assert forall|j: int| 0 <= j < old.len() implies #[trigger] stack_left(mid, i, index, j)
        == old[j].modifiers@ by {
        if j != i {
            if j < i {
                assert(old[j].id != old[i].id);
            } else {
                assert(old[i].id != old[j].id);
            }
            assert(mid[j].modifiers == old[j].modifiers);
        }
    }
    assert(!still_used(mid, i, index, tool)) by {
        if still_used(mid, i, index, tool) {
            let j = choose|j: int|
                0 <= j < mid.len() && stack_uses(#[trigger] stack_left(mid, i, index, j), tool);
            assert(stack_uses(old[j].modifiers@, tool));
        }
    }
    assert(frees_tool(mid, i, index, tool));
    assert forall|j: int|
        #![trigger new[j]]
        0 <= j < old.len() implies new[j] == (Object { modifiers: new[j].modifiers, ..old[j] })
        && new[j].modifiers@ == old[j].modifiers@ by {
        assert(new[j].modifiers@ == stack_left(mid, i, index, j));
        assert(mid[j].id == old[j].id);
        if j != i {
            if j < i {
                assert(old[j].id != old[i].id);
            } else {
                assert(old[i].id != old[j].id);
            }
        }
        if old[j].id != tool {
            assert(!seq![tool].contains(old[j].id));
            assert(!frees_tool(mid, i, index, old[j].id));
        } else {
            assert(seq![tool].contains(old[j].id));
        }
    }
}

/// The first subdivision of a stack.
pub open spec fn first_subdivision(stack: Seq<Modifier>, n: nat) -> Option<int>
    decreases n,
{
    if n == 0 {
        None
    } else if first_subdivision(stack, (n - 1) as nat) is Some {
        first_subdivision(stack, (n - 1) as nat)
    } else if stack[n - 1].kind is Subdivision {
        Some(n - 1)
    } else {
        None
    }
}

/// The first `n` entries of a stack without its subdivisions.
pub open spec fn without_subdivision(stack: Seq<Modifier>, n: nat) -> Seq<Modifier>
    decreases n,
{
    if n == 0 {
        seq![]
    } else {
        let before = without_subdivision(stack, (n - 1) as nat);
        if stack[n - 1].kind is Subdivision {
            before
        } else {
            before.push(stack[n - 1])
        }
    }
}

/// An enabled subdivision.
pub open spec fn subdivision(levels: u8) -> Modifier {
    Modifier { kind: ModifierKind::Subdivision { levels }, enabled: true }
}

/// The stack with its subdivision set to `levels`: the first one is changed
/// and enabled, or one is added at the end; none is left at level 0.
pub open spec fn with_subdivision(stack: Seq<Modifier>, levels: u8) -> Seq<Modifier> {
    if levels == 0 {
        without_subdivision(stack, stack.len())
    } else {
        match first_subdivision(stack, stack.len()) {
            Some(i) => stack.update(i, subdivision(levels)),
            None => stack.push(subdivision(levels)),
        }
    }
}

/// Sets the subdivision level of an object.
pub fn set_subdivision_on(object: &mut Object, levels: u8)
    ensures
        final(object).modifiers@ == with_subdivision(old(object).modifiers@, levels),
        *final(object) == (Object { modifiers: final(object).modifiers, ..*old(object) }),
{
    let ghost stack = object.modifiers@;
    if levels == 0 {
        let mut kept: Vec<Modifier> = Vec::new();
        let mut n: usize = 0;
        while n < object.modifiers.len()
            invariant
                n <= object.modifiers@.len(),
                *object == *old(object),
                kept@ == without_subdivision(object.modifiers@, n as nat),
            decreases object.modifiers@.len() - n,
        {
            let m = object.modifiers[n];
            if !matches!(m.kind, ModifierKind::Subdivision { .. }) {
                kept.push(m);
            }
            n += 1;
        }
        object.modifiers = kept;
        return;
    }
    let mut n: usize = 0;
    while n < object.modifiers.len()
        invariant
            n <= object.modifiers@.len(),
            *object == *old(object),
            levels > 0,
            first_subdivision(object.modifiers@, n as nat) is None,
        decreases object.modifiers@.len() - n,
    {
        if matches!(object.modifiers[n].kind, ModifierKind::Subdivision { .. }) {
            proof {
                lemma_first_sticks(
                    object.modifiers@,
                    (n + 1) as nat,
                    object.modifiers@.len(),
                );
            }
            object.modifiers.set(n, Modifier::new(ModifierKind::Subdivision { levels }));
            return;
        }
        n += 1;
    }
    object.modifiers.push(Modifier::new(ModifierKind::Subdivision { levels }));
}

proof fn lemma_first_sticks(stack: Seq<Modifier>, n: nat, m: nat)
    requires
        n <= m,
        first_subdivision(stack, n) is Some,
    ensures
        first_subdivision(stack, m) == first_subdivision(stack, n),
    decreases m,
{
    if n < m {
        lemma_first_sticks(stack, n, (m - 1) as nat);
    }
}

/// Sets the subdivision level of the object `id`; nothing happens if it is
/// not in the scene.
pub fn set_subdivision(scene: &mut Scene, id: ObjectId, levels: u8)
    requires
        old(scene).wf(),
    ensures
        final(scene).wf(),
        final(scene).folders == old(scene).folders,
        final(scene).next_id == old(scene).next_id,
        match place_of(old(scene).objects@, id) {
            None => *final(scene) == *old(scene),
            Some(i) => {
                let (was, now) = (old(scene).objects@, final(scene).objects@);
                &&& now.len() == was.len()
                &&& forall|j: int| 0 <= j < was.len() && j != i ==> #[trigger] now[j] == was[j]
                &&& now[i] == (Object { modifiers: now[i].modifiers, ..was[i] })
                &&& now[i].modifiers@ == with_subdivision(was[i].modifiers@, levels)
            },
        },
{
    if let Some(i) = scene.find(id) {
        let ghost before = scene.objects@;
        set_subdivision_on(&mut scene.objects[i], levels);
        proof {
            let now = scene.objects@;
            assert forall|j: int| 0 <= j < now.len() implies (#[trigger] now[j]).id
                == before[j].id by {}
            assert forall|a: int, b: int| 0 <= a < b < now.len() implies (#[trigger] now[a]).id
                != (#[trigger] now[b]).id by {
                assert(before[a].id != before[b].id);
            }
            assert forall|j: int| 0 <= j < now.len() implies (#[trigger] now[j]).id.0
                < scene.next_id by {
                assert(before[j].id.0 < scene.next_id);
            }
        }
    }
}

proof fn lemma_first_subdivision(stack: Seq<Modifier>, n: nat)
    requires
        n <= stack.len(),
    ensures
        first_subdivision(stack, n) matches Some(i) ==> 0 <= i < n && stack[i].kind is Subdivision
            && forall|j: int| 0 <= j < i ==> !((#[trigger] stack[j]).kind is Subdivision),
        first_subdivision(stack, n) is None ==> forall|j: int|
            0 <= j < n ==> !((#[trigger] stack[j]).kind is Subdivision),
    decreases n,
{
    if n > 0 {
        lemma_first_subdivision(stack, (n - 1) as nat);
    }
}

proof fn lemma_first_at(stack: Seq<Modifier>, n: nat, i: int)
    requires
        0 <= i < n <= stack.len(),
        stack[i].kind is Subdivision,
        forall|j: int| 0 <= j < i ==> !((#[trigger] stack[j]).kind is Subdivision),
    ensures
        first_subdivision(stack, n) == Some(i),
{
    lemma_first_subdivision(stack, n);
    match first_subdivision(stack, n) {
        None => {},
        Some(k) => {
            if k < i {
                assert(!(stack[k].kind is Subdivision));
            }
            if i < k {
                assert(!(stack[i].kind is Subdivision));
            }
        },
    }
}

/// Setting the level twice is setting it to the second value, level 0 left
/// out; a level that was set is the level of the first subdivision.
pub proof fn law_last_subdivision_wins(stack: Seq<Modifier>, one: u8, two: u8)
    requires
        one > 0,
        two > 0,
    ensures
        with_subdivision(with_subdivision(stack, one), two) == with_subdivision(stack, two),
        ({
            let now = with_subdivision(stack, one);
            first_subdivision(now, now.len()) matches Some(i) && now[i] == subdivision(one)
        }),
{
    lemma_first_subdivision(stack, stack.len());
    let now = with_subdivision(stack, one);
    match first_subdivision(stack, stack.len()) {
        Some(i) => {
            assert forall|j: int| 0 <= j < i implies !((#[trigger] now[j]).kind is Subdivision) by {
                assert(now[j] == stack[j]);
            }
            lemma_first_at(now, now.len(), i);
            assert(now.update(i, subdivision(two)) =~= stack.update(i, subdivision(two)));
        },
        None => {
            let i = stack.len() as int;
            assert forall|j: int| 0 <= j < i implies !((#[trigger] now[j]).kind is Subdivision) by {
                assert(now[j] == stack[j]);
            }
            lemma_first_at(now, now.len(), i);
            assert(now.update(i, subdivision(two)) =~= stack.push(subdivision(two)));
        },
    }
}

/// At level 0 no subdivision is left, and the other entries stay.
pub proof fn law_level_zero_removes_subdivision(stack: Seq<Modifier>)
    ensures
        forall|k: int|
            0 <= k < with_subdivision(stack, 0).len() ==> !((#[trigger] with_subdivision(
                stack,
                0,
            )[k]).kind is Subdivision),
{
    lemma_without_subdivision(stack, stack.len());
}

proof fn lemma_without_subdivision(stack: Seq<Modifier>, n: nat)
    ensures
        forall|k: int|
            0 <= k < without_subdivision(stack, n).len() ==> !((#[trigger] without_subdivision(
                stack,
                n,
            )[k]).kind is Subdivision),
    decreases n,
{
    if n > 0 {
        lemma_without_subdivision(stack, (n - 1) as nat);
        let before = without_subdivision(stack, (n - 1) as nat);
        let now = without_subdivision(stack, n);
        assert forall|k: int| 0 <= k < now.len() implies !((#[trigger] now[k]).kind
            is Subdivision) by {
            if k < before.len() {
                assert(now[k] == before[k]);
            }
        }
    }
}

/// The stack has no boolean: its levels add up over the enabled entries.
pub open spec fn only_subdivides(stack: Seq<Modifier>) -> bool {
    forall|k: int| 0 <= k < stack.len() ==> (#[trigger] stack[k]).kind is Subdivision
}

/// The levels of the enabled subdivisions among the first `n` entries.
pub open spec fn level_sum(stack: Seq<Modifier>, n: nat) -> nat
    decreases n,
{
    if n == 0 {
        0
    } else {
        level_sum(stack, (n - 1) as nat) + (match stack[n - 1].kind {
            ModifierKind::Subdivision { levels } => if stack[n - 1].enabled {
                levels as nat
            } else {
                0
            },
            _ => 0,
        })
    }
}

/// The total subdivision of an object whose stack has no boolean.
pub fn subdivision_only_levels(stack: &Vec<Modifier>) -> (r: Option<u64>)
    requires
        stack@.len() < u32::MAX,
    ensures
        r is Some == only_subdivides(stack@),
        r matches Some(n) ==> n == level_sum(stack@, stack@.len()),
{
    let mut sum: u64 = 0;
    let mut n: usize = 0;
    while n < stack.len()
        invariant
            n <= stack@.len(),
            stack@.len() < u32::MAX,
            sum <= n * 255,
            sum == level_sum(stack@, n as nat),
            forall|k: int| 0 <= k < n ==> (#[trigger] stack@[k]).kind is Subdivision,
        decreases stack@.len() - n,
    {
        let m = stack[n];
        match m.kind {
            ModifierKind::Subdivision { levels } => {
                if m.enabled {
                    sum = sum + levels as u64;
                }
            },
            ModifierKind::Boolean { .. } => {
                assert(!(stack@[n as int].kind is Subdivision));
                return None;
            },
        }
        n += 1;
    }
    Some(sum)
}

/// Lights, empties and ropes have no volume to combine; everything else has.
pub proof fn law_what_has_volume(p: Primitive)
    ensures
        has_no_volume(p) <==> p is Light || p is Empty || p is Rope,
{
}

/// Applying bakes the first entries of the stack and keeps the others, in
/// order: what was entry `count` becomes the first. The object keeps all but
/// its mesh, whose revision counts up, and no other object changes.
pub proof fn law_applying_bakes_the_first_entries(
    old: Seq<Object>,
    new: Seq<Object>,
    i: int,
    count: nat,
    handle: Handle,
    k: int,
)
    requires
        0 <= i < old.len(),
        old[i].mesh_revision < u64::MAX,
        baked(old, new, i, entries_taken(old[i].modifiers@, count), handle),
        0 <= k,
        count + k < old[i].modifiers@.len(),
    ensures
        new[i].modifiers@[k] == old[i].modifiers@[count + k],
        new[i].modifiers@.len() + count == old[i].modifiers@.len(),
        new[i].edited_mesh == Some(handle),
        new[i].mesh_revision == old[i].mesh_revision + 1,
        new[i].id == old[i].id && new[i].name == old[i].name && new[i].primitive == old[i].primitive
            && new[i].transform == old[i].transform && new[i].visible == old[i].visible,
        forall|j: int| 0 <= j < old.len() && j != i ==> #[trigger] new[j] == old[j],
{
}

/// Asking for the whole stack, or for more, bakes all of it.
pub proof fn law_applying_all_leaves_no_entry(
    old: Seq<Object>,
    new: Seq<Object>,
    i: int,
    count: nat,
    handle: Handle,
)
    requires
        0 <= i < old.len(),
        baked(old, new, i, entries_taken(old[i].modifiers@, count), handle),
        count >= old[i].modifiers@.len(),
    ensures
        new[i].modifiers@.len() == 0,
{
}

/// The entry is an enabled boolean with this tool.
pub open spec fn cuts_with(m: Modifier, tool: ObjectId) -> bool {
    m.enabled && m.kind is Boolean && m.kind->object == tool
}

/// Applying booleans consumes their tools, but none that is still needed: an
/// object that is gone was the tool of an enabled boolean that was applied,
/// and nothing that is left refers to it. A tool that nothing referred to is
/// gone; the object itself stays.
pub proof fn law_consumed_tools_are_not_needed(
    objects: Seq<Object>,
    id: ObjectId,
    applied: Seq<Modifier>,
    n: nat,
    tool: ObjectId,
)
    requires
        ids_distinct(objects),
        n <= applied.len(),
    ensures
        ({
            let left = consume(objects, id, applied, n).0;
            &&& ids_distinct(left)
            &&& forall|j: int| 0 <= j < left.len() ==> objects.contains(#[trigger] left[j])
            &&& exists_in(objects, tool) && !exists_in(left, tool) ==> tool != id && !referenced(
                left,
                tool,
            ) && exists|k: int| 0 <= k < n && cuts_with(#[trigger] applied[k], tool)
            &&& tool != id && !referenced(objects, tool) && (exists|k: int|
                0 <= k < n && cuts_with(#[trigger] applied[k], tool)) ==> !exists_in(left, tool)
        }),
    decreases n,
{
    if n > 0 {
        law_consumed_tools_are_not_needed(objects, id, applied, (n - 1) as nat, tool);
        let before = consume(objects, id, applied, (n - 1) as nat).0;
        let left = consume(objects, id, applied, n).0;
        let m = applied[n - 1];
        if m.kind is Boolean {
            // whatever is removed makes the scene shorter
            lemma_place_of(before, m.kind->object);
        }
        if !referenced(objects, tool) && referenced(before, tool) {
            let j = choose|j: int|
                0 <= j < before.len() && stack_uses((#[trigger] before[j]).modifiers@, tool);
            assert(objects.contains(before[j]));
            let k = choose|k: int| 0 <= k < objects.len() && objects[k] == before[j];
            assert(stack_uses(objects[k].modifiers@, tool));
        }
        if left.len() != before.len() {
            let gone = m.kind->object;
            let at = place_of(before, gone)->0;
            assert(left == before.remove(at));
            assert forall|j: int| 0 <= j < left.len() implies (if j < at {
                before[j]
            } else {
                before[j + 1]
            }) == #[trigger] left[j] by {}
            assert forall|j: int| 0 <= j < left.len() implies objects.contains(
                #[trigger] left[j],
            ) by {
                if j < at {
                    assert(left[j] == before[j]);
                } else {
                    assert(left[j] == before[j + 1]);
                }
            }
            assert forall|a: int, b: int| 0 <= a < b < left.len() implies (#[trigger] left[a]).id
                != (#[trigger] left[b]).id by {
                let x = if a < at {
                    a
                } else {
                    a + 1
                };
                let y = if b < at {
                    b
                } else {
                    b + 1
                };
                assert(before[x].id != before[y].id);
            }
            if referenced(left, tool) && !referenced(before, tool) {
                let j = choose|j: int|
                    0 <= j < left.len() && stack_uses((#[trigger] left[j]).modifiers@, tool);
                let x = if j < at {
                    j
                } else {
                    j + 1
                };
                assert(stack_uses(before[x].modifiers@, tool));
            }
            if exists_in(left, tool) {
                let j = choose|j: int| 0 <= j < left.len() && (#[trigger] left[j]).id == tool;
                let x = if j < at {
                    j
                } else {
                    j + 1
                };
                assert(before[x].id == tool);
                if tool == gone {
                    if x < at {
                        assert(before[x].id != before[at].id);
                    } else {
                        assert(before[at].id != before[x].id);
                    }
                }
            }
            if exists_in(before, tool) && tool != gone {
                let x = choose|x: int| 0 <= x < before.len() && (#[trigger] before[x]).id == tool;
                let j = if x < at {
                    x
                } else {
                    x - 1
                };
                assert(left[j].id == tool);
            }
            assert(cuts_with(applied[n - 1], gone));
        }
        if exists_in(objects, tool) && !exists_in(left, tool) {
            if !exists_in(before, tool) {
                let k = choose|k: int| 0 <= k < n - 1 && cuts_with(#[trigger] applied[k], tool);
                assert(cuts_with(applied[k], tool));
            } else {
                assert(cuts_with(applied[n - 1], tool));
            }
        }
        if tool != id && !referenced(objects, tool) && (exists|k: int|
            0 <= k < n && cuts_with(#[trigger] applied[k], tool)) {
            let k = choose|k: int| 0 <= k < n && cuts_with(#[trigger] applied[k], tool);
            if k < n - 1 {
                assert(cuts_with(applied[k], tool));
            } else {
                assert(!referenced(before, tool));
            }
        }
    } else {
        assert forall|j: int| 0 <= j < objects.len() implies objects.contains(
            #[trigger] objects[j],
        ) by {}
    }
}

/// Every tool gets one boolean, in the order given, however often it is
/// given.
pub proof fn law_each_tool_counts_once(tools: Seq<ObjectId>, n: nat)
    requires
        n <= tools.len(),
    ensures
        each_once(tools, n).no_duplicates(),
        forall|i: int| 0 <= i < n ==> each_once(tools, n).contains(#[trigger] tools[i]),
        forall|k: int|
            0 <= k < each_once(tools, n).len() ==> tools.contains(#[trigger] each_once(tools, n)[k]),
        n > 0 ==> each_once(tools, n)[0] == tools[0],
    decreases n,
{
    lemma_each_once(tools, n);
    if n > 1 {
        law_each_tool_counts_once(tools, (n - 1) as nat);
    }
}

/// Booleans are added only where target and tools are other objects of the
/// scene that have a volume, and wherever they are.
pub proof fn law_booleans_combine_volumes(
    objects: Seq<Object>,
    target: ObjectId,
    tools: Seq<ObjectId>,
)
    ensures
        boolean_error(objects, target, tools) is None <==> (place_of(objects, target) matches Some(i)
            && !has_no_volume(objects[i].primitive) && tools.len() > 0 && forall|k: int|
            0 <= k < tools.len() ==> (#[trigger] tools[k]) != target && (place_of(objects, tools[k])
                matches Some(j) && !has_no_volume(objects[j].primitive))),
{
    lemma_errors(objects, target, tools, tools.len());
}

proof fn lemma_errors(objects: Seq<Object>, target: ObjectId, tools: Seq<ObjectId>, n: nat)
    requires
        n <= tools.len(),
    ensures
        first_error(objects, target, tools, n) is None <==> forall|k: int|
            0 <= k < n ==> (#[trigger] tools[k]) != target && (place_of(objects, tools[k])
                matches Some(j) && !has_no_volume(objects[j].primitive)),
    decreases n,
{
    if n > 0 {
        lemma_errors(objects, target, tools, (n - 1) as nat);
        if first_error(objects, target, tools, n) is None {
            assert(tool_error(objects, target, tools[n - 1]) is None);
        } else if first_error(objects, target, tools, (n - 1) as nat) is None {
            let t = tools[n - 1];
            assert(!(t != target && (place_of(objects, t) matches Some(j) && !has_no_volume(
                objects[j].primitive,
            ))));
        }
    }
}

/// At level 0 the other entries stay, in order and as they were.
pub proof fn law_level_zero_keeps_the_rest(stack: Seq<Modifier>, m: Modifier)
    requires
        !(m.kind is Subdivision),
    ensures
        with_subdivision(stack.push(m), 0) == with_subdivision(stack, 0).push(m),
        with_subdivision(seq![], 0) == Seq::<Modifier>::empty(),
{
    let more = stack.push(m);
    lemma_without_prefix(stack, more, stack.len());
    assert(more.len() == stack.len() + 1);
}

proof fn lemma_without_prefix(a: Seq<Modifier>, b: Seq<Modifier>, n: nat)
    requires
        n <= a.len(),
        n <= b.len(),
        forall|k: int| 0 <= k < n ==> #[trigger] a[k] == b[k],
    ensures
        without_subdivision(a, n) == without_subdivision(b, n),
    decreases n,
{
    if n > 0 {
        lemma_without_prefix(a, b, (n - 1) as nat);
        assert(a[n - 1] == b[n - 1]);
    }
}

/// Every tool is hidden and cuts the target, by an enabled entry behind those
/// that were there, in the order of the tools. The target stays shown, and
/// every other object is as it was.
pub proof fn law_tools_are_hidden_and_cut(
    old: Seq<Object>,
    new: Seq<Object>,
    target: ObjectId,
    tools: Seq<ObjectId>,
    op: BooleanOp,
    i: int,
    k: int,
)
    requires
        booleans_added(old, new, target, tools, op),
        0 <= i < old.len(),
        0 <= k < tools.len(),
        !tools.contains(target),
    ensures
        old[i].id == target ==> ({
            let m = new[i].modifiers@[old[i].modifiers@.len() + k];
            &&& m.enabled && m.kind is Boolean && m.kind->object == tools[k] && m.kind->op == op
            &&& new[i].modifiers@.len() == old[i].modifiers@.len() + tools.len()
            &&& old[i].modifiers@.is_prefix_of(new[i].modifiers@)
            &&& new[i].visible == old[i].visible
        }),
        old[i].id == tools[k] ==> !new[i].visible && new[i].modifiers == old[i].modifiers,
        old[i].id != target && !tools.contains(old[i].id) ==> new[i] == old[i],
{
    assert(new[i] == new[i]);
    if old[i].id == tools[k] {
        assert(tools.contains(old[i].id));
    }
}

/// Removing an entry takes that entry and no other, and hides nothing. Only
/// its tool may be shown again, and that just where nothing needs it any
/// more.
pub proof fn law_removing_takes_one_entry(
    old: Seq<Object>,
    new: Seq<Object>,
    i: int,
    index: int,
    j: int,
)
    requires
        entry_removed(old, new, i, index),
        0 <= i < old.len(),
        0 <= index < old[i].modifiers@.len(),
        0 <= j < old.len(),
    ensures
        new[i].modifiers@ == old[i].modifiers@.remove(index),
        j != i ==> new[j].modifiers@ == old[j].modifiers@,
        old[j].visible ==> new[j].visible,
        new[j].visible && !old[j].visible ==> old[i].modifiers@[index].kind is Boolean
            && old[i].modifiers@[index].kind->object == old[j].id && !referenced(new, old[j].id),
        old[i].modifiers@[index].kind is Boolean && old[i].modifiers@[index].kind->object
            == old[j].id && !referenced(new, old[j].id) ==> new[j].visible,
        new[j].id == old[j].id && new[j].transform == old[j].transform && new[j].primitive
            == old[j].primitive,
{
    assert(new[i].id == old[i].id);
    assert(new[j].id == old[j].id);
    let tool = old[j].id;
    if referenced(new, tool) {
        let k = choose|k: int|
            0 <= k < new.len() && stack_uses((#[trigger] new[k]).modifiers@, tool);
        assert(stack_uses(stack_left(old, i, index, k), tool));
    }
    if still_used(old, i, index, tool) {
        let k = choose|k: int|
            0 <= k < old.len() && stack_uses(#[trigger] stack_left(old, i, index, k), tool);
        assert(stack_uses(new[k].modifiers@, tool));
    }
}

/// A stack is applied just where there is something to apply and something
/// would remain.
pub proof fn law_stacks_are_applied_where_something_remains(
    objects: Seq<Object>,
    id: ObjectId,
    count: nat,
    evaluated: Evaluated,
)
    ensures
        apply_error(objects, id, count, evaluated) is None <==> exists_in(objects, id) && count > 0
            && objects[place_of(objects, id)->0].modifiers@.len() > 0 && evaluated is Mesh
            && !evaluated->empty,
{
    lemma_place_of(objects, id);
}

/// Levels add up over the enabled subdivisions, and disabled entries count
/// for nothing.
pub proof fn law_enabled_levels_add_up(stack: Seq<Modifier>, n: nat)
    requires
        0 < n <= stack.len(),
    ensures
        !stack[n - 1].enabled ==> level_sum(stack, n) == level_sum(stack, (n - 1) as nat)
            && enabled_count(stack, n) == enabled_count(stack, (n - 1) as nat),
        stack[n - 1].enabled ==> enabled_count(stack, n) == enabled_count(stack, (n - 1) as nat) + 1,
        stack[n - 1].enabled && stack[n - 1].kind is Subdivision ==> level_sum(stack, n)
            == level_sum(stack, (n - 1) as nat) + stack[n - 1].kind->levels,
        stack[n - 1].kind is Boolean ==> level_sum(stack, n) == level_sum(stack, (n - 1) as nat),
{
}

} // verus!
