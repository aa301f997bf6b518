//! What the physics mirror promises over several calls: a stopped simulation
//! leaves no trace, the bodies are those of the shown objects, and edits that
//! do not change a shape rebuild nothing.

use vstd::prelude::*;
use crate::modifiers::world_of;
use crate::physics::{
    all_undraped, bodies_of, cloth_orders, cloths_in, deepest, dropped, entries_after, entry_of,
    fresh, in_place, kept, key_of, lemma_entry_of, lengths_back, mirror_orders, mirrored,
    move_order, moved_to, movers_at, movers_below, orders_for, placed_back, placements,
    rope_lengths, rope_orders, ropes_in, shown, solid, solid_entries, solid_orders,
    stopped_objects, undraped, with_length, workers_for, BodyEntry, Command,
};
use crate::scalar::{Quat, Scalar, Transform, Vec3};
use crate::scene::{
    ids_distinct, lemma_place_found, lemma_place_of, place_of, primitives_equal, Object, ObjectId,
    Primitive,
};
use crate::soft_bodies::{held, MAX_CLOTH_SEGMENTS, MAX_ROPE_SEGMENTS, MIN_ROPE_SEGMENTS};

verus! {

proof fn lemma_place_is(objects: Seq<Object>, i: int)
    requires
        ids_distinct(objects),
        0 <= i < objects.len(),
    ensures
        place_of(objects, objects[i].id) == Some(i),
{
    assert forall|j: int| 0 <= j < i implies (#[trigger] objects[j]).id != objects[i].id by {}
    lemma_place_found(objects, objects[i].id, i);
}

/// What is put back into an object: the placement that the snapshot has for
/// it, or its own.
pub open spec fn own_or_recorded(
    o: Object,
    snapshot: Seq<(ObjectId, Transform)>,
    n: nat,
) -> Transform
    decreases n,
{
    if n == 0 {
        o.transform
    } else if snapshot[n - 1].0 == o.id {
        snapshot[n - 1].1
    } else {
        own_or_recorded(o, snapshot, (n - 1) as nat)
    }
}

pub proof fn lemma_placed_back(objects: Seq<Object>, snapshot: Seq<(ObjectId, Transform)>, n: nat)
    requires
        ids_distinct(objects),
        n <= snapshot.len(),
    ensures
        placed_back(objects, snapshot, n).len() == objects.len(),
        forall|i: int|
            0 <= i < objects.len() ==> #[trigger] placed_back(objects, snapshot, n)[i] == (Object {
                transform: own_or_recorded(objects[i], snapshot, n),
                ..objects[i]
            }),
    decreases n,
{
    if n > 0 {
        lemma_placed_back(objects, snapshot, (n - 1) as nat);
        let before = placed_back(objects, snapshot, (n - 1) as nat);
        let id = snapshot[n - 1].0;
        assert forall|i: int, j: int| 0 <= i < j < before.len() implies (#[trigger] before[i]).id
            != (#[trigger] before[j]).id by {
            assert(objects[i].id != objects[j].id);
        }
        lemma_place_of(before, id);
        assert forall|i: int| 0 <= i < objects.len() implies #[trigger] placed_back(
            objects,
            snapshot,
            n,
        )[i] == (Object {
            transform: own_or_recorded(objects[i], snapshot, n),
            ..objects[i]
        }) by {
            assert(before[i].id == objects[i].id);
            if before[i].id == id {
                lemma_place_is(before, i);
            }
        }
    }
}

proof fn lemma_recorded(o: Object, first: Seq<Object>, j: int, n: nat)
    requires
        ids_distinct(first),
        n <= first.len(),
        0 <= j < n,
        first[j].id == o.id,
    ensures
        own_or_recorded(o, placements(first, first.len()), n) == first[j].transform,
    decreases n,
{
    lemma_placements(first, first.len());
    if n - 1 != j {
        assert(first[n - 1].id != first[j].id);
        lemma_recorded(o, first, j, (n - 1) as nat);
    }
}

proof fn lemma_not_recorded(o: Object, first: Seq<Object>, n: nat)
    requires
        n <= first.len(),
        forall|j: int| 0 <= j < first.len() ==> (#[trigger] first[j]).id != o.id,
    ensures
        own_or_recorded(o, placements(first, first.len()), n) == o.transform,
    decreases n,
{
    lemma_placements(first, first.len());
    if n > 0 {
        assert(first[n - 1].id != o.id);
        lemma_not_recorded(o, first, (n - 1) as nat);
    }
}

proof fn lemma_placements(objects: Seq<Object>, n: nat)
    requires
        n <= objects.len(),
    ensures
        placements(objects, n).len() == n,
        forall|i: int|
            0 <= i < n ==> #[trigger] placements(objects, n)[i] == (
                objects[i].id,
                objects[i].transform,
            ),
    decreases n,
{
    if n > 0 {
        lemma_placements(objects, (n - 1) as nat);
    }
}

/// The length that the records have for the rope `id`, where they have one.
spec fn recorded_length(lengths: Seq<(ObjectId, Scalar)>, id: ObjectId, n: nat) -> Option<Scalar>
    decreases n,
{
    if n == 0 {
        None
    } else if lengths[n - 1].0 == id {
        Some(lengths[n - 1].1)
    } else {
        recorded_length(lengths, id, (n - 1) as nat)
    }
}

spec fn relengthened(o: Object, length: Option<Scalar>) -> Object {
    match length {
        Some(l) => Object { primitive: with_length(o.primitive, l), ..o },
        None => o,
    }
}

proof fn lemma_lengths_back(objects: Seq<Object>, lengths: Seq<(ObjectId, Scalar)>, n: nat)
    requires
        ids_distinct(objects),
        n <= lengths.len(),
    ensures
        lengths_back(objects, lengths, n).len() == objects.len(),
        forall|i: int|
            0 <= i < objects.len() ==> #[trigger] lengths_back(objects, lengths, n)[i]
                == relengthened(objects[i], recorded_length(lengths, objects[i].id, n)),
    decreases n,
{
    if n > 0 {
        lemma_lengths_back(objects, lengths, (n - 1) as nat);
        let before = lengths_back(objects, lengths, (n - 1) as nat);
        let id = lengths[n - 1].0;
        assert forall|i: int, j: int| 0 <= i < j < before.len() implies (#[trigger] before[i]).id
            != (#[trigger] before[j]).id by {
            assert(objects[i].id != objects[j].id);
        }
        lemma_place_of(before, id);
        assert forall|i: int| 0 <= i < objects.len() implies #[trigger] lengths_back(
            objects,
            lengths,
            n,
        )[i] == relengthened(objects[i], recorded_length(lengths, objects[i].id, n)) by {
            assert(before[i].id == objects[i].id);
            if before[i].id == id {
                lemma_place_is(before, i);
            }
        }
    }
}

proof fn lemma_recorded_length(first: Seq<Object>, id: ObjectId, n: nat)
    requires
        ids_distinct(first),
        n <= first.len(),
    ensures
        ({
            let lengths = rope_lengths(first, n);
            &&& forall|j: int|
                #![trigger first[j]]
                0 <= j < n && first[j].id == id ==> recorded_length(lengths, id, lengths.len()) == (
                match first[j].primitive {
                    Primitive::Rope { length, .. } => Some(length),
                    _ => None,
                })
            &&& (forall|j: int| #![trigger first[j]] 0 <= j < n ==> first[j].id != id)
                ==> recorded_length(lengths, id, lengths.len()) is None
        }),
    decreases n,
{
    if n > 0 {
        let m = (n - 1) as nat;
        lemma_recorded_length(first, id, m);
        let before = rope_lengths(first, m);
        let lengths = rope_lengths(first, n);
        if first[n - 1].primitive is Rope {
            assert(lengths.drop_last() =~= before);
            lemma_recorded_prefix(before, lengths, id, before.len());
        }
        if first[n - 1].id == id {
            assert forall|j: int| 0 <= j < m implies (#[trigger] first[j]).id != id by {}
        }
    }
}

proof fn lemma_recorded_prefix(
    a: Seq<(ObjectId, Scalar)>,
    b: Seq<(ObjectId, Scalar)>,
    id: ObjectId,
    n: nat,
)
    requires
        n <= a.len(),
        n <= b.len(),
        forall|i: int| 0 <= i < n ==> a[i] == #[trigger] b[i],
    ensures
        recorded_length(a, id, n) == recorded_length(b, id, n),
    decreases n,
{
    if n > 0 {
        assert(a[n - 1] == b[n - 1]);
        lemma_recorded_prefix(a, b, id, (n - 1) as nat);
    }
}

proof fn lemma_all_undraped(objects: Seq<Object>, n: nat)
    requires
        n <= objects.len(),
    ensures
        all_undraped(objects, n).len() == objects.len(),
        forall|i: int|
            0 <= i < objects.len() ==> #[trigger] all_undraped(objects, n)[i] == (if i < n {
                undraped(objects[i])
            } else {
                objects[i]
            }),
    decreases n,
{
    if n > 0 {
        lemma_all_undraped(objects, (n - 1) as nat);
    }
}

proof fn lemma_stopped(
    objects: Seq<Object>,
    snapshot: Seq<(ObjectId, Transform)>,
    lengths: Seq<(ObjectId, Scalar)>,
    i: int,
)
    requires
        ids_distinct(objects),
        0 <= i < objects.len(),
    ensures
        stopped_objects(objects, snapshot, lengths).len() == objects.len(),
        stopped_objects(objects, snapshot, lengths)[i] == undraped(
            relengthened(
                Object {
                    transform: own_or_recorded(objects[i], snapshot, snapshot.len()),
                    ..objects[i]
                },
                recorded_length(lengths, objects[i].id, lengths.len()),
            ),
        ),
{
    lemma_placed_back(objects, snapshot, snapshot.len());
    let placed = placed_back(objects, snapshot, snapshot.len());
    assert forall|a: int, b: int| 0 <= a < b < placed.len() implies (#[trigger] placed[a]).id != (
    #[trigger] placed[b]).id by {
        assert(objects[a].id != objects[b].id);
    }
    lemma_lengths_back(placed, lengths, lengths.len());
    let long = lengths_back(placed, lengths, lengths.len());
    lemma_all_undraped(long, long.len());
    assert(placed[i].id == objects[i].id);
    assert(long[i] == relengthened(
        placed[i],
        recorded_length(lengths, placed[i].id, lengths.len()),
    ));
}

/// Stopping a simulation puts every object that was there when it started
/// back where it was, and a rope back to its length, whatever happened to
/// the scene meanwhile. Nothing else of the object changes but the shape it
/// was draped into.
pub proof fn law_stop_restores_the_start(first: Seq<Object>, last: Seq<Object>, j: int, i: int)
    requires
        ids_distinct(first),
        ids_distinct(last),
        0 <= j < first.len(),
        0 <= i < last.len(),
        first[j].id == last[i].id,
    ensures
        ({
            let back = stopped_objects(
                last,
                placements(first, first.len()),
                rope_lengths(first, first.len()),
            );
            &&& back.len() == last.len()
            &&& back[i] == undraped(
                Object {
                    transform: first[j].transform,
                    primitive: match first[j].primitive {
                        Primitive::Rope { length, .. } => with_length(last[i].primitive, length),
                        _ => last[i].primitive,
                    },
                    ..last[i]
                },
            )
            &&& back[i].primitive.rope() || back[i].primitive.cloth() ==> back[i].rope_nodes is None
                && back[i].cloth_nodes is None
        }),
{
    let snapshot = placements(first, first.len());
    let lengths = rope_lengths(first, first.len());
    lemma_stopped(last, snapshot, lengths, i);
    lemma_placements(first, first.len());
    lemma_recorded(last[i], first, j, first.len());
    lemma_recorded_length(first, last[i].id, first.len());
    assert(first[j].id == last[i].id);
}

/// Stopping a simulation leaves an object that was added meanwhile where it
/// is.
pub proof fn law_stop_keeps_new_objects(first: Seq<Object>, last: Seq<Object>, i: int)
    requires
        ids_distinct(first),
        ids_distinct(last),
        0 <= i < last.len(),
        forall|j: int| 0 <= j < first.len() ==> (#[trigger] first[j]).id != last[i].id,
    ensures
        ({
            let back = stopped_objects(
                last,
                placements(first, first.len()),
                rope_lengths(first, first.len()),
            );
            back.len() == last.len() && back[i] == undraped(last[i])
        }),
{
    let snapshot = placements(first, first.len());
    let lengths = rope_lengths(first, first.len());
    lemma_stopped(last, snapshot, lengths, i);
    lemma_placements(first, first.len());
    lemma_not_recorded(last[i], first, first.len());
    lemma_recorded_length(first, last[i].id, first.len());
}

/// No object has two bodies.
pub open spec fn entries_distinct(entries: Seq<BodyEntry>) -> bool {
    forall|i: int, j: int|
        0 <= i < j < entries.len() ==> (#[trigger] entries[i]).id != (#[trigger] entries[j]).id
}

/// The body is that of object `i` as it is now: of its shape, where it
/// stands, as bouncy as it is.
pub open spec fn up_to_date(
    e: BodyEntry,
    objects: Seq<Object>,
    worlds: Seq<Transform>,
    i: int,
) -> bool {
    &&& e.key == key_of(objects, worlds, i) || e.key.equal(key_of(objects, worlds, i))
    &&& (e.location == worlds[i].location && e.rotation == worlds[i].rotation) || in_place(
        e,
        worlds[i],
    )
    &&& e.bounciness == objects[i].bounciness || e.bounciness.equal(objects[i].bounciness)
}

proof fn lemma_entry_is(entries: Seq<BodyEntry>, j: int)
    requires
        entries_distinct(entries),
        0 <= j < entries.len(),
    ensures
        entry_of(entries, entries[j].id) == Some(j),
{
    lemma_entry_of(entries, entries[j].id);
    match entry_of(entries, entries[j].id) {
        Some(k) => {
            if k < j {
                assert(entries[k].id != entries[j].id);
            }
            if j < k {
                assert(entries[j].id != entries[j].id);
            }
        },
        None => {
            assert(entries[j].id != entries[j].id);
        },
    }
}

proof fn lemma_kept(objects: Seq<Object>, entries: Seq<BodyEntry>, n: nat)
    requires
        entries_distinct(entries),
        n <= entries.len(),
    ensures
        entries_distinct(kept(objects, entries, n)),
        forall|j: int|
            0 <= j < kept(objects, entries, n).len() ==> shown(
                objects,
                (#[trigger] kept(objects, entries, n)[j]).id,
            ),
        forall|j: int|
            0 <= j < kept(objects, entries, n).len() ==> exists|k: int|
                0 <= k < n && entries[k] == #[trigger] kept(objects, entries, n)[j],
        forall|k: int|
            0 <= k < n && shown(objects, (#[trigger] entries[k]).id) ==> (entry_of(
                kept(objects, entries, n),
                entries[k].id,
            ) matches Some(j) && kept(objects, entries, n)[j] == entries[k]),
        forall|id: ObjectId|
            (forall|k: int| 0 <= k < n ==> (#[trigger] entries[k]).id != id) ==> (
            #[trigger] entry_of(kept(objects, entries, n), id)) is None,
    decreases n,
{
    if n > 0 {
        let m = (n - 1) as nat;
        lemma_kept(objects, entries, m);
        let before = kept(objects, entries, m);
        let now = kept(objects, entries, n);
        let e = entries[n - 1];
        if shown(objects, e.id) {
            assert(now == before.push(e));
            assert forall|j: int| 0 <= j < before.len() implies (#[trigger] now[j]).id != e.id by {
                let k = choose|k: int| 0 <= k < m && entries[k] == before[j];
                assert(entries[k].id != entries[n - 1].id);
            }
            assert(entries_distinct(now)) by {
                assert forall|i: int, j: int| 0 <= i < j < now.len() implies (#[trigger] now[i]).id
                    != (#[trigger] now[j]).id by {
                    if j < before.len() {
                        assert(before[i].id != before[j].id);
                    }
                }
            }
            assert forall|j: int| 0 <= j < now.len() implies exists|k: int|
                0 <= k < n && entries[k] == #[trigger] now[j] by {
                if j < before.len() {
                    let k = choose|k: int| 0 <= k < m && entries[k] == before[j];
                    assert(entries[k] == now[j]);
                } else {
                    assert(entries[n - 1] == now[j]);
                }
            }
        }
        assert forall|k: int| 0 <= k < n && shown(objects, (#[trigger] entries[k]).id) implies (
        entry_of(now, entries[k].id) matches Some(j) && now[j] == entries[k]) by {
            if k < m {
                let j = entry_of(before, entries[k].id)->0;
                lemma_entry_of(before, entries[k].id);
                assert(now[j] == before[j]);
                lemma_entry_is(now, j);
            } else {
                lemma_entry_is(now, now.len() - 1);
            }
        }
        assert forall|id: ObjectId|
            (forall|k: int| 0 <= k < n ==> (#[trigger] entries[k]).id != id) implies (
        #[trigger] entry_of(now, id)) is None by {
            lemma_entry_of(now, id);
            if entry_of(now, id) is Some {
                let j = entry_of(now, id)->0;
                let k = choose|k: int| 0 <= k < n && entries[k] == now[j];
                assert(entries[k].id != id);
            }
        }
    }
}

/// Bringing object `i` up to date touches its own body only.
proof fn lemma_entries_after(
    objects: Seq<Object>,
    worlds: Seq<Transform>,
    entries: Seq<BodyEntry>,
    i: int,
)
    requires
        ids_distinct(objects),
        entries_distinct(entries),
        0 <= i < objects.len(),
        forall|j: int| 0 <= j < entries.len() ==> shown(objects, (#[trigger] entries[j]).id),
    ensures
        ({
            let now = entries_after(objects, worlds, entries, i);
            &&& entries_distinct(now)
            &&& forall|j: int| 0 <= j < now.len() ==> shown(objects, (#[trigger] now[j]).id)
            &&& objects[i].visible ==> entry_of(now, objects[i].id) is Some && up_to_date(
                now[entry_of(now, objects[i].id)->0],
                objects,
                worlds,
                i,
            )
            &&& forall|id: ObjectId|
                id != objects[i].id ==> (#[trigger] entry_of(now, id) is Some == entry_of(
                    entries,
                    id,
                ) is Some) && (entry_of(entries, id) is Some ==> now[entry_of(now, id)->0]
                    == entries[entry_of(entries, id)->0])
        }),
{
    let now = entries_after(objects, worlds, entries, i);
    let own = objects[i].id;
    lemma_place_is(objects, i);
    lemma_entry_of(entries, own);
    if objects[i].visible {
        match entry_of(entries, own) {
            Some(j) => {
                assert forall|a: int, b: int| 0 <= a < b < now.len() implies (#[trigger] now[a]).id
                    != (#[trigger] now[b]).id by {
                    assert(entries[a].id != entries[b].id);
                }
                assert forall|k: int| 0 <= k < now.len() implies shown(
                    objects,
                    (#[trigger] now[k]).id,
                ) by {
                    assert(now[k].id == entries[k].id);
                }
                lemma_entry_is(now, j);
            },
            None => {
                assert forall|a: int, b: int| 0 <= a < b < now.len() implies (#[trigger] now[a]).id
                    != (#[trigger] now[b]).id by {
                    if b < entries.len() {
                        assert(entries[a].id != entries[b].id);
                    } else {
                        assert(entries[a].id != own);
                    }
                }
                assert forall|k: int| 0 <= k < now.len() implies shown(
                    objects,
                    (#[trigger] now[k]).id,
                ) by {
                    if k < entries.len() {
                        assert(shown(objects, entries[k].id));
                    }
                }
                lemma_entry_is(now, now.len() - 1);
            },
        }
        assert forall|id: ObjectId| id != own implies (#[trigger] entry_of(now, id) is Some
            == entry_of(entries, id) is Some) && (entry_of(entries, id) is Some ==> now[entry_of(
            now,
            id,
        )->0] == entries[entry_of(entries, id)->0]) by {
            lemma_entry_of(entries, id);
            lemma_entry_of(now, id);
            if entry_of(entries, id) is Some {
                let k = entry_of(entries, id)->0;
                assert(now[k] == entries[k]);
                lemma_entry_is(now, k);
            } else if entry_of(now, id) is Some {
                let k = entry_of(now, id)->0;
                if k < entries.len() {
                    assert(entries[k].id == id);
                }
            }
        }
    }
}

proof fn lemma_mirrored(
    objects: Seq<Object>,
    worlds: Seq<Transform>,
    entries: Seq<BodyEntry>,
    n: nat,
)
    requires
        ids_distinct(objects),
        entries_distinct(entries),
        n <= objects.len(),
    ensures
        ({
            let now = mirrored(objects, worlds, entries, n);
            &&& entries_distinct(now)
            &&& forall|j: int| 0 <= j < now.len() ==> shown(objects, (#[trigger] now[j]).id)
            &&& forall|i: int|
                0 <= i < n && (#[trigger] objects[i]).visible ==> entry_of(now, objects[i].id)
                    is Some && up_to_date(
                    now[entry_of(now, objects[i].id)->0],
                    objects,
                    worlds,
                    i,
                )
        }),
    decreases n,
{
    if n == 0 {
        lemma_kept(objects, entries, entries.len());
    } else {
        let m = (n - 1) as nat;
        lemma_mirrored(objects, worlds, entries, m);
        let before = mirrored(objects, worlds, entries, m);
        let now = mirrored(objects, worlds, entries, n);
        lemma_entries_after(objects, worlds, before, n - 1);
        assert forall|i: int| 0 <= i < n && (#[trigger] objects[i]).visible implies entry_of(
            now,
            objects[i].id,
        ) is Some && up_to_date(now[entry_of(now, objects[i].id)->0], objects, worlds, i) by {
            if i < m {
                assert(objects[i].id != objects[n - 1].id);
                assert(entry_of(now, objects[i].id) is Some == entry_of(before, objects[i].id)
                    is Some);
            }
        }
    }
}

/// After the mirror was brought up to date, every visible object has one
/// body, which is as the object is now, and there are no other bodies.
pub proof fn law_bodies_are_those_of_shown_objects(
    objects: Seq<Object>,
    worlds: Seq<Transform>,
    entries: Seq<BodyEntry>,
    i: int,
    j: int,
)
    requires
        ids_distinct(objects),
        entries_distinct(entries),
        0 <= i < objects.len(),
        0 <= j < mirrored(objects, worlds, entries, objects.len()).len(),
    ensures
        ({
            let now = mirrored(objects, worlds, entries, objects.len());
            &&& entries_distinct(now)
            &&& objects[i].visible ==> entry_of(now, objects[i].id) is Some && up_to_date(
                now[entry_of(now, objects[i].id)->0],
                objects,
                worlds,
                i,
            )
            &&& !objects[i].visible ==> entry_of(now, objects[i].id) is None
            &&& shown(objects, now[j].id)
        }),
{
    lemma_mirrored(objects, worlds, entries, objects.len());
    let now = mirrored(objects, worlds, entries, objects.len());
    lemma_place_is(objects, i);
    lemma_entry_of(now, objects[i].id);
    if !objects[i].visible && entry_of(now, objects[i].id) is Some {
        assert(shown(objects, now[entry_of(now, objects[i].id)->0].id));
    }
}

/// Two bodies of the same shape, in the same place and equally bouncy:
/// numbers are compared as numbers.
pub open spec fn same_body(a: BodyEntry, b: BodyEntry) -> bool {
    &&& a.id == b.id
    &&& a.key == b.key || a.key.equal(b.key)
    &&& (a.location == b.location && a.rotation == b.rotation) || (a.location.equal(b.location)
        && a.rotation.equal(b.rotation))
    &&& a.bounciness == b.bounciness || a.bounciness.equal(b.bounciness)
}

/// A mirror without bodies makes a new one for each visible object.
proof fn lemma_fresh_mirror(objects: Seq<Object>, worlds: Seq<Transform>, n: nat)
    requires
        ids_distinct(objects),
        n <= objects.len(),
    ensures
        ({
            let now = mirrored(objects, worlds, seq![], n);
            forall|i: int|
                0 <= i < objects.len() ==> match entry_of(now, (#[trigger] objects[i]).id) {
                    Some(j) => i < n && objects[i].visible && now[j] == fresh(objects, worlds, i),
                    None => !(i < n && objects[i].visible),
                }
        }),
    decreases n,
{
    if n > 0 {
        let m = (n - 1) as nat;
        let none: Seq<BodyEntry> = seq![];
        lemma_fresh_mirror(objects, worlds, m);
        lemma_mirrored(objects, worlds, none, m);
        lemma_mirrored(objects, worlds, none, n);
        let before = mirrored(objects, worlds, none, m);
        let now = mirrored(objects, worlds, none, n);
        lemma_entries_after(objects, worlds, before, m as int);
        assert(entry_of(before, objects[m as int].id) is None);
        assert forall|i: int| 0 <= i < objects.len() implies match entry_of(
            now,
            (#[trigger] objects[i]).id,
        ) {
            Some(j) => i < n && objects[i].visible && now[j] == fresh(objects, worlds, i),
            None => !(i < n && objects[i].visible),
        } by {
            if i == m {
                if objects[i].visible {
                    lemma_entry_is(now, now.len() - 1);
                }
            } else {
                if i < m {
                    assert(objects[i].id != objects[m as int].id);
                } else {
                    assert(objects[m as int].id != objects[i].id);
                }
                assert(entry_of(now, objects[i].id) is Some == entry_of(before, objects[i].id)
                    is Some);
            }
        }
    }
}

/// Bringing a mirror up to date, whatever earlier versions of the scene it
/// has followed, leaves it with the bodies that a new mirror makes of the
/// scene: the same objects have one, and each is the same.
pub proof fn law_bodies_are_those_of_a_new_mirror(
    objects: Seq<Object>,
    worlds: Seq<Transform>,
    entries: Seq<BodyEntry>,
    id: ObjectId,
)
    requires
        ids_distinct(objects),
        entries_distinct(entries),
    ensures
        ({
            let now = mirrored(objects, worlds, entries, objects.len());
            let anew = mirrored(objects, worlds, seq![], objects.len());
            &&& entries_distinct(now)
            &&& entries_distinct(anew)
            &&& entry_of(now, id) is Some <==> entry_of(anew, id) is Some
            &&& entry_of(now, id) matches Some(j) ==> same_body(now[j], anew[entry_of(anew, id)->0])
        }),
{
    let none: Seq<BodyEntry> = seq![];
    let now = mirrored(objects, worlds, entries, objects.len());
    let anew = mirrored(objects, worlds, none, objects.len());
    lemma_mirrored(objects, worlds, entries, objects.len());
    lemma_mirrored(objects, worlds, none, objects.len());
    lemma_fresh_mirror(objects, worlds, objects.len());
    lemma_entry_of(now, id);
    lemma_entry_of(anew, id);
    lemma_place_of(objects, id);
    if let Some(j) = entry_of(now, id) {
        assert(shown(objects, now[j].id));
    }
    if let Some(j) = entry_of(anew, id) {
        assert(shown(objects, anew[j].id));
    }
    if let Some(i) = place_of(objects, id) {
        assert(objects[i].id == id);
    }
}

/// The body of `id`, where there is one.
pub open spec fn body_of(entries: Seq<BodyEntry>, id: ObjectId) -> Option<BodyEntry> {
    match entry_of(entries, id) {
        Some(j) => Some(entries[j]),
        None => None,
    }
}

/// What an order makes of the body of `id` in the physics world.
pub open spec fn body_after(
    body: Option<BodyEntry>,
    order: Command,
    objects: Seq<Object>,
    worlds: Seq<Transform>,
    id: ObjectId,
) -> Option<BodyEntry> {
    match order {
        Command::Destroy { id: other } => if other == id {
            None
        } else {
            body
        },
        Command::Create { place, id: other, .. } => if other == id {
            Some(fresh(objects, worlds, place as int))
        } else {
            body
        },
        Command::Move { id: other, location, rotation } => match body {
            Some(b) if other == id => Some(BodyEntry { location, rotation, ..b }),
            _ => body,
        },
        Command::Retune { id: other, bounciness } => match body {
            Some(b) if other == id => Some(BodyEntry { bounciness, ..b }),
            _ => body,
        },
        _ => body,
    }
}

/// What the orders make of it, one after the other.
pub open spec fn body_carried(
    body: Option<BodyEntry>,
    orders: Seq<Command>,
    objects: Seq<Object>,
    worlds: Seq<Transform>,
    id: ObjectId,
) -> Option<BodyEntry>
    decreases orders.len(),
{
    if orders.len() == 0 {
        body
    } else {
        body_after(
            body_carried(body, orders.drop_last(), objects, worlds, id),
            orders.last(),
            objects,
            worlds,
            id,
        )
    }
}

proof fn lemma_carried_on(
    body: Option<BodyEntry>,
    first: Seq<Command>,
    more: Seq<Command>,
    objects: Seq<Object>,
    worlds: Seq<Transform>,
    id: ObjectId,
)
    ensures
        body_carried(body, first + more, objects, worlds, id) == body_carried(
            body_carried(body, first, objects, worlds, id),
            more,
            objects,
            worlds,
            id,
        ),
    decreases more.len(),
{
    if more.len() == 0 {
        assert(first + more =~= first);
    } else {
        lemma_carried_on(body, first, more.drop_last(), objects, worlds, id);
        assert((first + more).drop_last() =~= first + more.drop_last());
    }
}

/// Dropping destroys the bodies of objects that are not shown, and no other.
proof fn lemma_drops_carried(
    objects: Seq<Object>,
    worlds: Seq<Transform>,
    entries: Seq<BodyEntry>,
    n: nat,
    id: ObjectId,
    body: Option<BodyEntry>,
)
    requires
        n <= entries.len(),
    ensures
        body_carried(body, dropped(objects, entries, n), objects, worlds, id) == (if !shown(
            objects,
            id,
        ) && (exists|k: int| 0 <= k < n && (#[trigger] entries[k]).id == id) {
            None
        } else {
            body
        }),
    decreases n,
{
    if n > 0 {
        let before = dropped(objects, entries, (n - 1) as nat);
        lemma_drops_carried(objects, worlds, entries, (n - 1) as nat, id, body);
        if !shown(objects, entries[n - 1].id) {
            assert(dropped(objects, entries, n).drop_last() =~= before);
        }
    }
}

proof fn lemma_orders_carried(
    objects: Seq<Object>,
    worlds: Seq<Transform>,
    entries: Seq<BodyEntry>,
    n: nat,
    id: ObjectId,
)
    requires
        ids_distinct(objects),
        entries_distinct(entries),
        n <= objects.len() <= usize::MAX,
    ensures
        body_carried(
            body_of(entries, id),
            mirror_orders(objects, worlds, entries, n),
            objects,
            worlds,
            id,
        ) == body_of(mirrored(objects, worlds, entries, n), id),
    decreases n,
{
    if n == 0 {
        let now = kept(objects, entries, entries.len());
        lemma_kept(objects, entries, entries.len());
        lemma_drops_carried(objects, worlds, entries, entries.len(), id, body_of(entries, id));
        lemma_entry_of(entries, id);
        lemma_entry_of(now, id);
        if let Some(j) = entry_of(entries, id) {
            assert(entries[j].id == id);
            if let Some(k) = entry_of(now, id) {
                assert(shown(objects, now[k].id));
            }
        } else {
            assert(entry_of(now, id) is None);
        }
    } else {
        let m = (n - 1) as nat;
        let i = n - 1;
        lemma_orders_carried(objects, worlds, entries, m, id);
        lemma_mirrored(objects, worlds, entries, m);
        let before = mirrored(objects, worlds, entries, m);
        let now = mirrored(objects, worlds, entries, n);
        let more = orders_for(objects, worlds, before, i);
        lemma_entries_after(objects, worlds, before, i);
        lemma_carried_on(
            body_of(entries, id),
            mirror_orders(objects, worlds, entries, m),
            more,
            objects,
            worlds,
            id,
        );
        lemma_step_carried(objects, worlds, before, i, id);
    }
}

/// The orders for one object do to its body what the mirror notes.
proof fn lemma_step_carried(
    objects: Seq<Object>,
    worlds: Seq<Transform>,
    entries: Seq<BodyEntry>,
    i: int,
    id: ObjectId,
)
    requires
        ids_distinct(objects),
        entries_distinct(entries),
        0 <= i < objects.len() <= usize::MAX,
        forall|j: int| 0 <= j < entries.len() ==> shown(objects, (#[trigger] entries[j]).id),
    ensures
        body_carried(
            body_of(entries, id),
            orders_for(objects, worlds, entries, i),
            objects,
            worlds,
            id,
        ) == body_of(entries_after(objects, worlds, entries, i), id),
{
    reveal_with_fuel(body_carried, 3);
    let now = entries_after(objects, worlds, entries, i);
    let orders = orders_for(objects, worlds, entries, i);
    let own = objects[i].id;
    lemma_entries_after(objects, worlds, entries, i);
    lemma_entry_of(entries, own);
    lemma_entry_of(entries, id);
    lemma_entry_of(now, id);
    if objects[i].visible {
        match entry_of(entries, own) {
            Some(j) => {
                lemma_entry_is(now, j);
                let e = entries[j];
                if e.key.equal(key_of(objects, worlds, i)) {
                    let moved = in_place(e, worlds[i]);
                    let tuned = e.bounciness.equal(objects[i].bounciness);
                    assert(orders.len() == (if moved {
                        0int
                    } else {
                        1
                    }) + (if tuned {
                        0int
                    } else {
                        1
                    }));
                    if !moved && !tuned {
                        assert(orders.drop_last().drop_last() =~= seq![]);
                        assert(orders.drop_last().last() == orders[0]);
                    } else if orders.len() > 0 {
                        assert(orders.drop_last() =~= seq![]);
                    }
                } else {
                    assert(orders.drop_last().drop_last() =~= seq![]);
                    assert(orders.drop_last().last() == orders[0]);
                }
            },
            None => {
                lemma_entry_is(now, now.len() - 1);
                assert(orders.drop_last() =~= seq![]);
            },
        }
        if id != own {
            assert(entry_of(now, id) is Some == entry_of(entries, id) is Some);
        }
    } else {
        assert(orders =~= seq![]);
    }
}

/// Carrying out the orders leaves the physics world with the bodies that the
/// mirror has noted, if it had the noted ones before.
pub proof fn law_orders_make_the_noted_bodies(
    objects: Seq<Object>,
    worlds: Seq<Transform>,
    entries: Seq<BodyEntry>,
    id: ObjectId,
)
    requires
        ids_distinct(objects),
        entries_distinct(entries),
        objects.len() <= usize::MAX,
    ensures
        body_carried(
            body_of(entries, id),
            mirror_orders(objects, worlds, entries, objects.len()),
            objects,
            worlds,
            id,
        ) == body_of(mirrored(objects, worlds, entries, objects.len()), id),
{
    lemma_orders_carried(objects, worlds, entries, objects.len(), id);
}

/// The order builds or destroys the body of `id`.
pub open spec fn rebuilds(c: Command, id: ObjectId) -> bool {
    match c {
        Command::Destroy { id: other } => other == id,
        Command::Create { id: other, .. } => other == id,
        Command::Clear => true,
        Command::Recreate { .. } => true,
        _ => false,
    }
}

proof fn lemma_dropped(objects: Seq<Object>, entries: Seq<BodyEntry>, n: nat, id: ObjectId)
    requires
        n <= entries.len(),
        shown(objects, id),
    ensures
        forall|k: int|
            0 <= k < dropped(objects, entries, n).len() ==> !rebuilds(
                #[trigger] dropped(objects, entries, n)[k],
                id,
            ),
    decreases n,
{
    if n > 0 {
        let before = dropped(objects, entries, (n - 1) as nat);
        lemma_dropped(objects, entries, (n - 1) as nat, id);
        assert forall|k: int| 0 <= k < dropped(objects, entries, n).len() implies !rebuilds(
            #[trigger] dropped(objects, entries, n)[k],
            id,
        ) by {
            if k < before.len() {
                assert(dropped(objects, entries, n)[k] == before[k]);
            }
        }
    }
}

proof fn lemma_not_rebuilt(
    objects: Seq<Object>,
    worlds: Seq<Transform>,
    entries: Seq<BodyEntry>,
    i: int,
    n: nat,
)
    requires
        ids_distinct(objects),
        entries_distinct(entries),
        0 <= i < objects.len(),
        objects[i].visible,
        entry_of(entries, objects[i].id) is Some,
        entries[entry_of(entries, objects[i].id)->0].key.equal(key_of(objects, worlds, i)),
        n <= objects.len(),
    ensures
        ({
            let now = mirrored(objects, worlds, entries, n);
            &&& entry_of(now, objects[i].id) is Some
            &&& now[entry_of(now, objects[i].id)->0].key.equal(key_of(objects, worlds, i))
            &&& forall|k: int|
                0 <= k < mirror_orders(objects, worlds, entries, n).len() ==> !rebuilds(
                    #[trigger] mirror_orders(objects, worlds, entries, n)[k],
                    objects[i].id,
                )
        }),
    decreases n,
{
    let id = objects[i].id;
    lemma_place_is(objects, i);
    if n == 0 {
        lemma_kept(objects, entries, entries.len());
        lemma_entry_of(entries, id);
        lemma_dropped(objects, entries, entries.len(), id);
        let at = entry_of(entries, id)->0;
        assert(shown(objects, entries[at].id));
    } else {
        let m = (n - 1) as nat;
        lemma_not_rebuilt(objects, worlds, entries, i, m);
        lemma_mirrored(objects, worlds, entries, m);
        let before = mirrored(objects, worlds, entries, m);
        lemma_entries_after(objects, worlds, before, n - 1);
        let now = mirrored(objects, worlds, entries, n);
        let first = mirror_orders(objects, worlds, entries, m);
        let more = orders_for(objects, worlds, before, n - 1);
        assert(mirror_orders(objects, worlds, entries, n) == first + more);
        if n - 1 != i {
            if i < n - 1 {
                assert(objects[i].id != objects[n - 1].id);
            } else {
                assert(objects[n - 1].id != objects[i].id);
            }
            assert(entry_of(now, id) is Some == entry_of(before, id) is Some);
        } else {
            let at = entry_of(before, id)->0;
            lemma_entry_of(before, id);
            assert(now[at].key == before[at].key);
            lemma_entry_is(now, at);
        }
        assert forall|k: int|
            0 <= k < mirror_orders(objects, worlds, entries, n).len() implies !rebuilds(
            #[trigger] mirror_orders(objects, worlds, entries, n)[k],
            id,
        ) by {
            if k < first.len() {
                assert(mirror_orders(objects, worlds, entries, n)[k] == first[k]);
            } else {
                assert(mirror_orders(objects, worlds, entries, n)[k] == more[k - first.len()]);
            }
        }
    }
}

/// An edit that keeps the shape of an object, such as moving it or making it
/// bouncier, neither destroys nor rebuilds its body.
pub proof fn law_unchanged_shapes_keep_their_bodies(
    objects: Seq<Object>,
    worlds: Seq<Transform>,
    entries: Seq<BodyEntry>,
    i: int,
    k: int,
)
    requires
        ids_distinct(objects),
        entries_distinct(entries),
        0 <= i < objects.len(),
        objects[i].visible,
        entry_of(entries, objects[i].id) is Some,
        entries[entry_of(entries, objects[i].id)->0].key.equal(key_of(objects, worlds, i)),
        0 <= k < mirror_orders(objects, worlds, entries, objects.len()).len(),
    ensures
        !rebuilds(mirror_orders(objects, worlds, entries, objects.len())[k], objects[i].id),
{
    lemma_not_rebuilt(objects, worlds, entries, i, objects.len());
}

/// Every number that the mirror compares is one.
pub open spec fn numbers_only(objects: Seq<Object>, worlds: Seq<Transform>) -> bool {
    forall|i: int|
        0 <= i < objects.len() && (#[trigger] objects[i]).visible ==> key_of(
            objects,
            worlds,
            i,
        ).equal(key_of(objects, worlds, i)) && worlds[i].location.equal(worlds[i].location)
            && worlds[i].rotation.equal(worlds[i].rotation) && objects[i].bounciness.equal(
            objects[i].bounciness,
        )
}

proof fn lemma_nothing_to_drop(objects: Seq<Object>, entries: Seq<BodyEntry>, n: nat)
    requires
        n <= entries.len(),
        forall|j: int| 0 <= j < entries.len() ==> shown(objects, (#[trigger] entries[j]).id),
    ensures
        kept(objects, entries, n) == entries.take(n as int),
        dropped(objects, entries, n) == Seq::<Command>::empty(),
    decreases n,
{
    if n > 0 {
        lemma_nothing_to_drop(objects, entries, (n - 1) as nat);
        assert(shown(objects, entries[n - 1].id));
        assert(entries.take(n as int) =~= entries.take(n - 1).push(entries[n - 1]));
    } else {
        assert(entries.take(0) =~= seq![]);
    }
}

proof fn lemma_settled(
    objects: Seq<Object>,
    worlds: Seq<Transform>,
    entries: Seq<BodyEntry>,
    n: nat,
)
    requires
        ids_distinct(objects),
        entries_distinct(entries),
        numbers_only(objects, worlds),
        forall|j: int| 0 <= j < entries.len() ==> shown(objects, (#[trigger] entries[j]).id),
        forall|i: int|
            0 <= i < objects.len() && (#[trigger] objects[i]).visible ==> entry_of(
                entries,
                objects[i].id,
            ) is Some && up_to_date(
                entries[entry_of(entries, objects[i].id)->0],
                objects,
                worlds,
                i,
            ),
        n <= objects.len(),
    ensures
        mirrored(objects, worlds, entries, n) == entries,
        mirror_orders(objects, worlds, entries, n) == Seq::<Command>::empty(),
    decreases n,
{
    if n == 0 {
        lemma_nothing_to_drop(objects, entries, entries.len());
        assert(entries.take(entries.len() as int) =~= entries);
    } else {
        lemma_settled(objects, worlds, entries, (n - 1) as nat);
        if objects[n - 1].visible {
            let j = entry_of(entries, objects[n - 1].id)->0;
            lemma_entry_of(entries, objects[n - 1].id);
            assert(up_to_date(entries[j], objects, worlds, n - 1));
            assert(orders_for(objects, worlds, entries, n - 1) =~= Seq::<Command>::empty());
            assert(entries_after(objects, worlds, entries, n - 1) =~= entries);
        }
        assert(mirror_orders(objects, worlds, entries, n) =~= Seq::<Command>::empty());
    }
}

/// Bringing the mirror up to date a second time, with nothing changed, does
/// nothing.
pub proof fn law_second_sync_does_nothing(
    objects: Seq<Object>,
    worlds: Seq<Transform>,
    entries: Seq<BodyEntry>,
)
    requires
        ids_distinct(objects),
        entries_distinct(entries),
        numbers_only(objects, worlds),
    ensures
        ({
            let now = mirrored(objects, worlds, entries, objects.len());
            &&& mirrored(objects, worlds, now, objects.len()) == now
            &&& mirror_orders(objects, worlds, now, objects.len()) == Seq::<Command>::empty()
        }),
{
    lemma_mirrored(objects, worlds, entries, objects.len());
    lemma_settled(
        objects,
        worlds,
        mirrored(objects, worlds, entries, objects.len()),
        objects.len(),
    );
}

/// The id is that of a solid object that is dynamic, at a depth from `low`
/// up to but not including `high`.
spec fn mover_within(
    objects: Seq<Object>,
    depths: Seq<usize>,
    id: ObjectId,
    low: int,
    high: int,
) -> bool {
    exists|i: int|
        #![trigger objects[i]]
        0 <= i < objects.len() && objects[i].id == id && solid(objects[i]) && objects[i].dynamic
            && low <= depths[i] < high
}

proof fn lemma_mover_is(
    objects: Seq<Object>,
    depths: Seq<usize>,
    i: int,
    low: int,
    high: int,
)
    requires
        ids_distinct(objects),
        0 <= i < objects.len(),
        mover_within(objects, depths, objects[i].id, low, high),
    ensures
        solid(objects[i]) && objects[i].dynamic && low <= depths[i] < high,
{
    let k = choose|k: int|
        #![trigger objects[k]]
        0 <= k < objects.len() && objects[k].id == objects[i].id && solid(objects[k])
            && objects[k].dynamic && low <= depths[k] < high;
    lemma_place_is(objects, k);
    lemma_place_is(objects, i);
}

proof fn lemma_movers_at(objects: Seq<Object>, depths: Seq<usize>, d: int, n: nat)
    requires
        n <= objects.len(),
        depths.len() == objects.len(),
    ensures
        forall|p: int|
            0 <= p < movers_at(objects, depths, d, n).len() ==> mover_within(
                objects,
                depths,
                #[trigger] movers_at(objects, depths, d, n)[p],
                d,
                d + 1,
            ),
        forall|i: int|
            0 <= i < n && solid(#[trigger] objects[i]) && objects[i].dynamic && depths[i] == d
                ==> movers_at(objects, depths, d, n).contains(objects[i].id),
    decreases n,
{
    if n > 0 {
        let m = (n - 1) as nat;
        lemma_movers_at(objects, depths, d, m);
        let before = movers_at(objects, depths, d, m);
        let now = movers_at(objects, depths, d, n);
        assert forall|p: int| 0 <= p < now.len() implies mover_within(
            objects,
            depths,
            #[trigger] now[p],
            d,
            d + 1,
        ) by {
            if p < before.len() {
                assert(now[p] == before[p]);
            } else {
                assert(objects[n - 1].id == now[p]);
            }
        }
        assert forall|i: int|
            0 <= i < n && solid(#[trigger] objects[i]) && objects[i].dynamic && depths[i]
                == d implies now.contains(objects[i].id) by {
            if i < m {
                let p = choose|p: int| 0 <= p < before.len() && before[p] == objects[i].id;
                assert(now[p] == objects[i].id);
            } else {
                assert(now[now.len() - 1] == objects[i].id);
            }
        }
    }
}

/// Where an id stands in the order, its object is at a depth below `limit`,
/// and no deeper than the object of any later id.
proof fn lemma_movers_below(objects: Seq<Object>, depths: Seq<usize>, limit: nat)
    requires
        ids_distinct(objects),
        depths.len() == objects.len(),
    ensures
        forall|p: int|
            0 <= p < movers_below(objects, depths, limit).len() ==> mover_within(
                objects,
                depths,
                #[trigger] movers_below(objects, depths, limit)[p],
                0,
                limit as int,
            ),
        forall|i: int|
            0 <= i < objects.len() && solid(#[trigger] objects[i]) && objects[i].dynamic
                && depths[i] < limit ==> movers_below(objects, depths, limit).contains(
                objects[i].id,
            ),
    decreases limit,
{
    if limit > 0 {
        let below = (limit - 1) as nat;
        lemma_movers_below(objects, depths, below);
        lemma_movers_at(objects, depths, below as int, objects.len());
        let before = movers_below(objects, depths, below);
        let at = movers_at(objects, depths, below as int, objects.len());
        let now = movers_below(objects, depths, limit);
        assert(now == before + at);
        assert forall|p: int| 0 <= p < now.len() implies mover_within(
            objects,
            depths,
            #[trigger] now[p],
            0,
            limit as int,
        ) by {
            if p < before.len() {
                assert(now[p] == before[p]);
                assert(mover_within(objects, depths, before[p], 0, below as int));
            } else {
                let k = p - before.len();
                assert(now[p] == at[k]);
                assert(mover_within(objects, depths, at[k], below as int, below as int + 1));
            }
        }
        assert forall|i: int|
            0 <= i < objects.len() && solid(#[trigger] objects[i]) && objects[i].dynamic
                && depths[i] < limit implies now.contains(objects[i].id) by {
            if depths[i] < below {
                let p = choose|p: int| 0 <= p < before.len() && before[p] == objects[i].id;
                assert(now[p] == objects[i].id);
            } else {
                let p = choose|p: int| 0 <= p < at.len() && at[p] == objects[i].id;
                assert(now[before.len() + p] == objects[i].id);
            }
        }
    }
}

proof fn lemma_depths_rise(
    objects: Seq<Object>,
    depths: Seq<usize>,
    limit: nat,
    p: int,
    q: int,
    i: int,
    j: int,
)
    requires
        ids_distinct(objects),
        depths.len() == objects.len(),
        0 <= p < q < movers_below(objects, depths, limit).len(),
        0 <= i < objects.len(),
        0 <= j < objects.len(),
        objects[i].id == movers_below(objects, depths, limit)[p],
        objects[j].id == movers_below(objects, depths, limit)[q],
    ensures
        depths[i] <= depths[j],
    decreases limit,
{
    if limit > 0 {
        let below = (limit - 1) as nat;
        lemma_movers_below(objects, depths, below);
        lemma_movers_below(objects, depths, limit);
        lemma_movers_at(objects, depths, below as int, objects.len());
        let before = movers_below(objects, depths, below);
        let at = movers_at(objects, depths, below as int, objects.len());
        let now = movers_below(objects, depths, limit);
        assert(now == before + at);
        if q < before.len() {
            assert(now[p] == before[p] && now[q] == before[q]);
            lemma_depths_rise(objects, depths, below, p, q, i, j);
        } else {
            assert(now[q] == at[q - before.len()]);
            lemma_mover_is(objects, depths, j, below as int, below as int + 1);
            lemma_mover_is(objects, depths, i, 0, limit as int);
        }
    }
}

proof fn lemma_deepest(depths: Seq<usize>, n: nat)
    requires
        n <= depths.len(),
    ensures
        forall|i: int| 0 <= i < n ==> (#[trigger] depths[i]) <= deepest(depths, n),
    decreases n,
{
    if n > 0 {
        lemma_deepest(depths, (n - 1) as nat);
    }
}

/// The bodies that move are written back parents before children: depths
/// never fall along the order.
pub proof fn law_parents_move_before_children(
    objects: Seq<Object>,
    depths: Seq<usize>,
    p: int,
    q: int,
    i: int,
    j: int,
)
    requires
        ids_distinct(objects),
        depths.len() == objects.len(),
        0 <= p < q < move_order(objects, depths).len(),
        0 <= i < objects.len(),
        0 <= j < objects.len(),
        objects[i].id == move_order(objects, depths)[p],
        objects[j].id == move_order(objects, depths)[q],
    ensures
        depths[i] <= depths[j],
{
    lemma_depths_rise(objects, depths, deepest(depths, depths.len()) + 1, p, q, i, j);
}

/// A body moves in a simulation exactly where its object is solid and
/// dynamic.
pub proof fn law_dynamic_solids_move(objects: Seq<Object>, depths: Seq<usize>, i: int)
    requires
        ids_distinct(objects),
        depths.len() == objects.len(),
        0 <= i < objects.len(),
    ensures
        move_order(objects, depths).contains(objects[i].id) <==> solid(objects[i])
            && objects[i].dynamic,
{
    let order = move_order(objects, depths);
    let limit = deepest(depths, depths.len()) + 1;
    lemma_movers_below(objects, depths, limit);
    lemma_deepest(depths, depths.len());
    if order.contains(objects[i].id) {
        let p = choose|p: int| 0 <= p < order.len() && order[p] == objects[i].id;
        assert(mover_within(objects, depths, order[p], 0, limit as int));
        lemma_mover_is(objects, depths, i, 0, limit as int);
    }
}

/// Lights, cameras and empties have no body, ropes and cloths are built from
/// many; every other visible object is one solid body.
pub proof fn law_solids_are_the_rest(o: Object)
    ensures
        solid(o) <==> o.visible && !(o.primitive is Light) && !(o.primitive is Empty) && !(
        o.primitive is Camera) && !(o.primitive is Rope) && !(o.primitive is Cloth),
        o.primitive.rope() <==> o.primitive is Rope,
        o.primitive.cloth() <==> o.primitive is Cloth,
{
}

/// The simulation starts with one body for each solid object, moving where
/// it is dynamic, which is then pushed; static bodies and others get no push.
pub proof fn law_play_builds_every_solid(objects: Seq<Object>, n: nat, i: int)
    requires
        0 <= i < n <= objects.len() <= usize::MAX,
    ensures
        ({
            let orders = solid_orders(objects, n);
            let o = objects[i];
            let still = Command::Create { place: i as usize, id: o.id, dynamic: false };
            let moving = Command::Create { place: i as usize, id: o.id, dynamic: true };
            &&& orders.contains(moving) <==> solid(o) && o.dynamic
            &&& orders.contains(still) <==> solid(o) && !o.dynamic
            &&& solid(o) && o.dynamic ==> orders.contains(
                Command::Push { id: o.id, force: o.initial_force },
            )
            &&& forall|k: int|
                0 <= k < orders.len() ==> match #[trigger] orders[k] {
                    Command::Create { place, .. } => place < n,
                    Command::Push { id, .. } => exists|j: int|
                        0 <= j < n && (#[trigger] objects[j]).id == id && solid(objects[j])
                            && objects[j].dynamic,
                    _ => false,
                }
        }),
    decreases n,
{
    let orders = solid_orders(objects, n);
    let before = solid_orders(objects, (n - 1) as nat);
    let o = objects[i];
    let still = Command::Create { place: i as usize, id: o.id, dynamic: false };
    let moving = Command::Create { place: i as usize, id: o.id, dynamic: true };
    let push = Command::Push { id: o.id, force: o.initial_force };
    if n > 1 {
        law_play_builds_every_solid(
            objects,
            (n - 1) as nat,
            if i < n - 1 {
                i
            } else {
                0
            },
        );
    } else {
        assert(before.len() == 0);
    }
    assert(before.is_prefix_of(orders));
    assert forall|c: Command| before.contains(c) implies #[trigger] orders.contains(c) by {
        let k = choose|k: int| 0 <= k < before.len() && before[k] == c;
        assert(orders[k] == c);
    }
    assert forall|k: int| 0 <= k < orders.len() implies match #[trigger] orders[k] {
        Command::Create { place, .. } => place < n,
        Command::Push { id, .. } => exists|j: int|
            0 <= j < n && (#[trigger] objects[j]).id == id && solid(objects[j])
                && objects[j].dynamic,
        _ => false,
    } by {
        if k < before.len() {
            assert(orders[k] == before[k]);
            if let Command::Push { id, .. } = orders[k] {
                let j = choose|j: int|
                    0 <= j < n - 1 && (#[trigger] objects[j]).id == id && solid(objects[j])
                        && objects[j].dynamic;
                assert(objects[j].id == id);
            }
        } else if let Command::Push { id, .. } = orders[k] {
            assert(objects[n - 1].id == id);
        }
    }
    if i < n - 1 {
        if orders.contains(moving) {
            let k = choose|k: int| 0 <= k < orders.len() && orders[k] == moving;
            assert(before[k] == moving);
        }
        if orders.contains(still) {
            let k = choose|k: int| 0 <= k < orders.len() && orders[k] == still;
            assert(before[k] == still);
        }
    } else {
        if solid(o) {
            assert(orders[before.len() as int] == (if o.dynamic {
                moving
            } else {
                still
            }));
            if o.dynamic {
                assert(orders[before.len() as int + 1] == push);
            }
        }
        if orders.contains(moving) {
            let k = choose|k: int| 0 <= k < orders.len() && orders[k] == moving;
            if k < before.len() {
                assert(before[k] == moving);
            }
        }
        if orders.contains(still) {
            let k = choose|k: int| 0 <= k < orders.len() && orders[k] == still;
            if k < before.len() {
                assert(before[k] == still);
            }
        }
    }
}

/// Ropes and cloths are built just where they are visible, and noted as what
/// was built.
pub proof fn law_play_builds_ropes_and_cloths(objects: Seq<Object>, n: nat, id: ObjectId)
    requires
        n <= objects.len() <= usize::MAX,
    ensures
        ropes_in(objects, n).contains(id) <==> exists|j: int|
            0 <= j < n && (#[trigger] objects[j]).id == id && objects[j].visible
                && objects[j].primitive is Rope,
        cloths_in(objects, n).contains(id) <==> exists|j: int|
            0 <= j < n && (#[trigger] objects[j]).id == id && objects[j].visible
                && objects[j].primitive is Cloth,
        rope_orders(objects, n).len() == ropes_in(objects, n).len(),
        cloth_orders(objects, n).len() == cloths_in(objects, n).len(),
        forall|k: int|
            0 <= k < rope_orders(objects, n).len() ==> match #[trigger] rope_orders(objects, n)[k] {
                Command::CreateRope { place, id: rope } => place < n && objects[place as int].id
                    == rope && rope == ropes_in(objects, n)[k] && objects[place as int].primitive
                    is Rope,
                _ => false,
            },
        forall|k: int|
            0 <= k < cloth_orders(objects, n).len() ==> match #[trigger] cloth_orders(objects, n)[k] {
                Command::CreateCloth { place, id: cloth } => place < n && objects[place as int].id
                    == cloth && cloth == cloths_in(objects, n)[k]
                    && objects[place as int].primitive is Cloth,
                _ => false,
            },
    decreases n,
{
    if n > 0 {
        law_play_builds_ropes_and_cloths(objects, (n - 1) as nat, id);
        let r0 = ropes_in(objects, (n - 1) as nat);
        let r1 = ropes_in(objects, n);
        let c0 = cloths_in(objects, (n - 1) as nat);
        let c1 = cloths_in(objects, n);
        if r0.contains(id) {
            let k = choose|k: int| 0 <= k < r0.len() && r0[k] == id;
            assert(r1[k] == id);
        }
        if c0.contains(id) {
            let k = choose|k: int| 0 <= k < c0.len() && c0[k] == id;
            assert(c1[k] == id);
        }
        if objects[n - 1].id == id {
            if r1.len() > r0.len() {
                assert(r1[r0.len() as int] == id);
            }
            if c1.len() > c0.len() {
                assert(c1[c0.len() as int] == id);
            }
        }
        if r1.contains(id) && !r0.contains(id) {
            assert(objects[n - 1].id == id);
        }
        if c1.contains(id) && !c0.contains(id) {
            assert(objects[n - 1].id == id);
        }
        let ro = rope_orders(objects, n);
        let rb = rope_orders(objects, (n - 1) as nat);
        assert forall|k: int| 0 <= k < ro.len() implies match #[trigger] ro[k] {
            Command::CreateRope { place, id: rope } => place < n && objects[place as int].id
                == rope && rope == r1[k] && objects[place as int].primitive is Rope,
            _ => false,
        } by {
            if k < rb.len() {
                assert(ro[k] == rb[k]);
            }
        }
        let co = cloth_orders(objects, n);
        let cb = cloth_orders(objects, (n - 1) as nat);
        assert forall|k: int| 0 <= k < co.len() implies match #[trigger] co[k] {
            Command::CreateCloth { place, id: cloth } => place < n && objects[place as int].id
                == cloth && cloth == c1[k] && objects[place as int].primitive is Cloth,
            _ => false,
        } by {
            if k < cb.len() {
                assert(co[k] == cb[k]);
            }
        }
    }
}

/// What is built is noted: the bodies noted when a simulation starts are one
/// for each solid object, as it is.
pub proof fn law_play_notes_every_solid(
    objects: Seq<Object>,
    worlds: Seq<Transform>,
    n: nat,
    id: ObjectId,
)
    requires
        n <= objects.len(),
    ensures
        (exists|k: int|
            0 <= k < solid_entries(objects, worlds, n).len() && (#[trigger] solid_entries(
                objects,
                worlds,
                n,
            )[k]).id == id) <==> exists|j: int|
            0 <= j < n && (#[trigger] objects[j]).id == id && solid(objects[j]),
    decreases n,
{
    if n > 0 {
        law_play_notes_every_solid(objects, worlds, (n - 1) as nat, id);
        let before = solid_entries(objects, worlds, (n - 1) as nat);
        let now = solid_entries(objects, worlds, n);
        if exists|k: int| 0 <= k < before.len() && (#[trigger] before[k]).id == id {
            let k = choose|k: int| 0 <= k < before.len() && (#[trigger] before[k]).id == id;
            assert(now[k].id == id);
        }
        if objects[n - 1].id == id && solid(objects[n - 1]) {
            assert(now[before.len() as int].id == id);
        }
        if exists|k: int| 0 <= k < now.len() && (#[trigger] now[k]).id == id {
            let k = choose|k: int| 0 <= k < now.len() && (#[trigger] now[k]).id == id;
            if k < before.len() {
                assert(before[k].id == id);
            } else {
                assert(objects[n - 1].id == id);
            }
        }
    }
}

/// A body counts only where it moves: hidden and static objects have none, a
/// dynamic object one, a rope one for each of its nodes and a cloth one for
/// each node of its grid.
pub proof fn law_moving_bodies_are_counted(o: Object)
    ensures
        !o.visible ==> bodies_of(o) == 0,
        !o.dynamic && !(o.primitive is Rope) && !(o.primitive is Cloth) ==> bodies_of(o) == 0,
        o.visible && o.dynamic && !(o.primitive is Rope) && !(o.primitive is Cloth) ==> bodies_of(o)
            == 1,
        o.visible && o.primitive is Rope ==> bodies_of(o) == held(
            o.primitive->Rope_segments,
            MIN_ROPE_SEGMENTS,
            MAX_ROPE_SEGMENTS,
        ) + 1,
        o.visible && o.primitive is Cloth ==> bodies_of(o) == (held(
            o.primitive->segments_u,
            1,
            MAX_CLOTH_SEGMENTS,
        ) + 1) * (held(o.primitive->segments_v, 1, MAX_CLOTH_SEGMENTS) + 1),
{
    if let Primitive::Cloth { segments_u, segments_v, .. } = o.primitive {
        let a = held(segments_u, 1, MAX_CLOTH_SEGMENTS) + 1;
        let b = held(segments_v, 1, MAX_CLOTH_SEGMENTS) + 1;
        assert(a * b >= 0) by (nonlinear_arith)
            requires
                a >= 0,
                b >= 0,
        ;
    }
}

/// Threads are only taken for many bodies, never more than there are and
/// never more than sixteen; more bodies never take fewer.
pub proof fn law_threads_are_for_many_bodies(bodies: nat, more: nat, threads: u32)
    requires
        bodies <= more,
    ensures
        bodies < 500 ==> workers_for(bodies, threads) == 0,
        workers_for(bodies, threads) <= threads,
        workers_for(bodies, threads) <= 16,
        bodies >= 500 ==> workers_for(bodies, threads) == threads || workers_for(bodies, threads)
            == 16,
        workers_for(bodies, threads) <= workers_for(more, threads),
{
}

/// A body is rebuilt for every change of shape: of the primitive, the edited
/// mesh, the openings, the outline, the scale, the density or the shown
/// modifiers. Its place and its bounciness are no part of the shape.
pub proof fn law_shape_changes_rebuild(
    objects: Seq<Object>,
    worlds: Seq<Transform>,
    i: int,
    others: Seq<Object>,
    their_worlds: Seq<Transform>,
    j: int,
)
    requires
        objects[i].cutouts@.len() <= usize::MAX,
        objects[i].floor_outline@.len() <= usize::MAX,
        others[j].cutouts@.len() <= usize::MAX,
        others[j].floor_outline@.len() <= usize::MAX,
        key_of(objects, worlds, i).equal(key_of(others, their_worlds, j)),
    ensures
        primitives_equal(objects[i].primitive, others[j].primitive),
        objects[i].mesh_revision == others[j].mesh_revision,
        objects[i].edited_mesh is Some == others[j].edited_mesh is Some,
        objects[i].cutouts@.len() == others[j].cutouts@.len(),
        objects[i].floor_outline@.len() == others[j].floor_outline@.len(),
        worlds[i].scale.equal(their_worlds[j].scale),
        objects[i].density.equal(others[j].density),
{
}

/// What moved is written back where the simulation has it, with the scale
/// that it had.
pub proof fn law_readings_are_written_back(
    objects: Seq<Object>,
    worlds: Seq<Transform>,
    order: Seq<ObjectId>,
    readings: Seq<(Vec3, Quat)>,
    n: nat,
    i: int,
)
    requires
        0 <= i < n,
    ensures
        moved_to(objects, worlds, order, readings, n).len() == n,
        ({
            let (id, world) = moved_to(objects, worlds, order, readings, n)[i];
            &&& id == order[i]
            &&& world.location == readings[i].0
            &&& world.rotation == readings[i].1
            &&& world.scale == world_of(objects, worlds, order[i]).scale
        }),
    decreases n,
{
    if n > 1 {
        law_readings_are_written_back(
            objects,
            worlds,
            order,
            readings,
            (n - 1) as nat,
            if i < n - 1 {
                i
            } else {
                0
            },
        );
    } else {
        assert(moved_to(objects, worlds, order, readings, 0).len() == 0);
    }
}

} // verus!
