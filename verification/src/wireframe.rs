//! The wireframe view: which objects' edges must be worked out anew.

use vstd::prelude::*;
use crate::scene::{primitives_equal, same_primitive, Object, ObjectId, Primitive, Scene};
use crate::selection::Selection;
use crate::shading::wire_tier;

verus! {

/// What the cached edges of an object were worked out from.
#[derive(Clone, Copy, Debug)]
pub struct WireEntry {
    pub id: ObjectId,
    pub primitive: Primitive,
    pub smooth: bool,
    pub stamp: u64,
}

/// One object of the wireframe view, by its place in the document: whether
/// its edges must be worked out anew, and the tier they are drawn in.
#[derive(Clone, Copy, PartialEq, Eq, Structural, Debug)]
pub struct WireObject {
    pub object: usize,
    pub rebuild: bool,
    pub tier: u8,
}

/// The entry of the object `id`.
pub open spec fn entry_of(cache: Seq<WireEntry>, id: ObjectId) -> Option<WireEntry>
    decreases cache.len(),
{
    if cache.len() == 0 {
        None
    } else if entry_of(cache.drop_last(), id) is Some {
        entry_of(cache.drop_last(), id)
    } else if cache.last().id == id {
        Some(cache.last())
    } else {
        None
    }
}

/// The cached edges of the object no longer show it: there are none, or its
/// primitive, its shading or what its modifiers depend on has changed.
pub open spec fn is_stale(cache: Seq<WireEntry>, o: Object, stamp: u64) -> bool {
    match entry_of(cache, o.id) {
        None => true,
        Some(e) => !primitives_equal(e.primitive, o.primitive) || e.smooth != o.smooth || e.stamp
            != stamp,
    }
}

/// The entry of an object after it was shown.
pub open spec fn fresh_entry(cache: Seq<WireEntry>, o: Object, stamp: u64) -> WireEntry {
    if is_stale(cache, o, stamp) {
        WireEntry { id: o.id, primitive: o.primitive, smooth: o.smooth, stamp }
    } else {
        entry_of(cache, o.id)->0
    }
}

/// The tier of an object's edges.
pub open spec fn edge_tier(o: Object, selected: Seq<ObjectId>, active: Option<ObjectId>) -> u8 {
    let has = o.modifiers@.len() > 0;
    if active == Some(o.id) {
        if has {
            4
        } else {
            2
        }
    } else if selected.contains(o.id) {
        if has {
            3
        } else {
            1
        }
    } else {
        0
    }
}

/// The wireframe view of the first `n` objects: hidden ones are left out.
pub open spec fn wire_objects(
    cache: Seq<WireEntry>,
    objects: Seq<Object>,
    stamps: Seq<u64>,
    selected: Seq<ObjectId>,
    active: Option<ObjectId>,
    n: nat,
) -> Seq<WireObject>
    decreases n,
{
    if n == 0 {
        seq![]
    } else {
        let o = objects[n - 1];
        let before = wire_objects(cache, objects, stamps, selected, active, (n - 1) as nat);
        if o.visible {
            before.push(
                WireObject {
                    object: (n - 1) as usize,
                    rebuild: is_stale(cache, o, stamps[n - 1]),
                    tier: edge_tier(o, selected, active),
                },
            )
        } else {
            before
        }
    }
}

/// The cache after the first `n` objects were shown: entries of what is not
/// visible are gone.
pub open spec fn wire_cache(
    cache: Seq<WireEntry>,
    objects: Seq<Object>,
    stamps: Seq<u64>,
    n: nat,
) -> Seq<WireEntry>
    decreases n,
{
    if n == 0 {
        seq![]
    } else {
        let o = objects[n - 1];
        let before = wire_cache(cache, objects, stamps, (n - 1) as nat);
        if o.visible {
            before.push(fresh_entry(cache, o, stamps[n - 1]))
        } else {
            before
        }
    }
}

/// The cache of sharp edges.
#[derive(Debug)]
pub struct WireframeCache {
    cache: Vec<WireEntry>,
}

impl View for WireframeCache {
    type V = Seq<WireEntry>;

    closed spec fn view(&self) -> Seq<WireEntry> {
        self.cache@
    }
}

impl WireframeCache {
    pub fn new() -> (r: WireframeCache)
        ensures
            r@ == Seq::<WireEntry>::empty(),
    {
        let r = WireframeCache { cache: Vec::new() };
        assert(r@ =~= Seq::<WireEntry>::empty());
        r
    }

    fn find(&self, id: ObjectId) -> (r: Option<WireEntry>)
        ensures
            r == entry_of(self@, id),
    {
        let mut found: Option<WireEntry> = None;
        let mut i: usize = 0;
        while i < self.cache.len()
            invariant
                i <= self.cache@.len(),
                found == entry_of(self.cache@.take(i as int), id),
            decreases self.cache@.len() - i,
        {
            if found.is_none() && self.cache[i].id == id {
                found = Some(self.cache[i]);
            }
            i += 1;
            assert(self.cache@.take(i as int).drop_last() =~= self.cache@.take(i - 1));
            assert(self.cache@.take(i as int).last() == self.cache@[i - 1]);
        }
        assert(self.cache@.take(i as int) =~= self.cache@);
        found
    }

    /// The wireframe view of the scene. `stamps` are the fingerprints of the
    /// objects' modifier stacks, in order.
    pub fn segments(&mut self, scene: &Scene, stamps: &Vec<u64>, selection: &Selection) -> (r: Vec<
        WireObject,
    >)
        requires
            stamps@.len() == scene.objects@.len(),
        ensures
            r@ == wire_objects(
                old(self)@,
                scene.objects@,
                stamps@,
                selection@.selected,
                selection@.active,
                scene.objects@.len(),
            ),
            final(self)@ == wire_cache(
                old(self)@,
                scene.objects@,
                stamps@,
                scene.objects@.len(),
            ),
    {
        let mut r: Vec<WireObject> = Vec::new();
        let mut next: Vec<WireEntry> = Vec::new();
        let mut n: usize = 0;
        while n < scene.objects.len()
            invariant
                n <= scene.objects@.len(),
                stamps@.len() == scene.objects@.len(),
                *self == *old(self),
                r@ == wire_objects(
                    self@,
                    scene.objects@,
                    stamps@,
                    selection@.selected,
                    selection@.active,
                    n as nat,
                ),
                next@ == wire_cache(self@, scene.objects@, stamps@, n as nat),
            decreases scene.objects@.len() - n,
        {
            let o = &scene.objects[n];
            if o.visible {
                let stamp = stamps[n];
                let entry = self.find(o.id);
                let stale = match entry {
                    None => true,
                    Some(e) => !same_primitive(&e.primitive, &o.primitive) || e.smooth != o.smooth
                        || e.stamp != stamp,
                };
                if stale {
                    next.push(
                        WireEntry { id: o.id, primitive: o.primitive, smooth: o.smooth, stamp },
                    );
                } else {
                    next.push(entry.unwrap());
                }
                let tier = wire_tier(o.id, selection, o.modifiers.len() > 0);
                r.push(WireObject { object: n, rebuild: stale, tier });
            }
            n += 1;
        }
        self.cache = next;
        r
    }
}

/// The edges of the active object stand out from those of other selected
/// ones, and both from the rest; modifiers show on either.
pub proof fn law_tiers_tell_objects_apart(
    o: Object,
    p: Object,
    selected: Seq<ObjectId>,
    active: Option<ObjectId>,
)
    requires
        o.modifiers@.len() == 0,
        p.modifiers@.len() > 0,
        p.id == o.id,
    ensures
        edge_tier(o, selected, active) == 0 <==> active != Some(o.id) && !selected.contains(o.id),
        edge_tier(o, selected, active) == 1 <==> active != Some(o.id) && selected.contains(o.id),
        edge_tier(o, selected, active) == 2 <==> active == Some(o.id),
        edge_tier(o, selected, active) == 0 ==> edge_tier(p, selected, active) == 0,
        edge_tier(o, selected, active) > 0 ==> edge_tier(p, selected, active) == edge_tier(
            o,
            selected,
            active,
        ) + 2,
{
}

/// Every visible object is drawn once, in scene order, and no hidden one.
pub proof fn law_wires_are_of_visible_objects(
    cache: Seq<WireEntry>,
    objects: Seq<Object>,
    stamps: Seq<u64>,
    selected: Seq<ObjectId>,
    active: Option<ObjectId>,
    n: nat,
    i: usize,
)
    requires
        n <= objects.len() <= usize::MAX,
    ensures
        ({
            let wires = wire_objects(cache, objects, stamps, selected, active, n);
            &&& (exists|k: int| 0 <= k < wires.len() && (#[trigger] wires[k]).object == i) <==> i < n
                && objects[i as int].visible
            &&& forall|a: int, b: int|
                0 <= a < b < wires.len() ==> (#[trigger] wires[a]).object < (
                #[trigger] wires[b]).object
            &&& forall|a: int|
                0 <= a < wires.len() ==> (#[trigger] wires[a]).object < n && wires[a].tier
                    == edge_tier(objects[wires[a].object as int], selected, active)
        }),
    decreases n,
{
    if n > 0 {
        law_wires_are_of_visible_objects(
            cache,
            objects,
            stamps,
            selected,
            active,
            (n - 1) as nat,
            i,
        );
        let before = wire_objects(cache, objects, stamps, selected, active, (n - 1) as nat);
        let wires = wire_objects(cache, objects, stamps, selected, active, n);
        if exists|k: int| 0 <= k < before.len() && (#[trigger] before[k]).object == i {
            let k = choose|k: int| 0 <= k < before.len() && (#[trigger] before[k]).object == i;
            assert(wires[k].object == i);
        }
        if objects[n - 1].visible {
            assert(wires[before.len() as int].object == n - 1);
        }
        if exists|k: int| 0 <= k < wires.len() && (#[trigger] wires[k]).object == i {
            let k = choose|k: int| 0 <= k < wires.len() && (#[trigger] wires[k]).object == i;
            if k < before.len() {
                assert(before[k].object == i);
            }
        }
    }
}

proof fn lemma_entry_found(cache: Seq<WireEntry>, k: int)
    requires
        0 <= k < cache.len(),
        forall|j: int| 0 <= j < k ==> (#[trigger] cache[j]).id != cache[k].id,
    ensures
        entry_of(cache, cache[k].id) == Some(cache[k]),
    decreases cache.len(),
{
    let rest = cache.drop_last();
    if k < rest.len() {
        assert forall|j: int| 0 <= j < k implies (#[trigger] rest[j]).id != rest[k].id by {
            assert(rest[j] == cache[j]);
        }
        lemma_entry_found(rest, k);
    } else {
        lemma_no_entry(rest, cache[k].id);
    }
}

proof fn lemma_no_entry(cache: Seq<WireEntry>, id: ObjectId)
    requires
        forall|j: int| 0 <= j < cache.len() ==> (#[trigger] cache[j]).id != id,
    ensures
        entry_of(cache, id) is None,
    decreases cache.len(),
{
    if cache.len() > 0 {
        let rest = cache.drop_last();
        assert forall|j: int| 0 <= j < rest.len() implies (#[trigger] rest[j]).id != id by {
            assert(rest[j] == cache[j]);
        }
        lemma_no_entry(rest, id);
        assert(cache[cache.len() - 1].id != id);
    }
}

/// Wires are rebuilt for any change of the shape, and for nothing else: the
/// primitive, the shading or the stamp of the mesh.
pub proof fn law_wires_are_rebuilt_on_change(
    cache: Seq<WireEntry>,
    o: Object,
    stamp: u64,
    k: int,
)
    requires
        0 <= k < cache.len(),
        cache[k].id == o.id,
        forall|j: int| 0 <= j < k ==> (#[trigger] cache[j]).id != o.id,
    ensures
        !is_stale(cache, o, stamp) <==> primitives_equal(cache[k].primitive, o.primitive)
            && cache[k].smooth == o.smooth && cache[k].stamp == stamp,
        fresh_entry(cache, o, stamp).id == o.id,
        fresh_entry(cache, o, stamp).stamp == stamp,
        fresh_entry(cache, o, stamp).smooth == o.smooth,
{
    lemma_entry_found(cache, k);
}

/// What has no wires yet gets them.
pub proof fn law_new_objects_get_wires(cache: Seq<WireEntry>, o: Object, stamp: u64)
    requires
        forall|j: int| 0 <= j < cache.len() ==> (#[trigger] cache[j]).id != o.id,
    ensures
        is_stale(cache, o, stamp),
        fresh_entry(cache, o, stamp) == (WireEntry {
            id: o.id,
            primitive: o.primitive,
            smooth: o.smooth,
            stamp,
        }),
{
    lemma_no_entry(cache, o.id);
}

} // verus!
