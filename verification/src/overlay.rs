//! What is drawn over the view: which objects carry a label or their size, the
//! marks of the active object, and the ruler, which makes a measurement of two clicks on surfaces.

use vstd::prelude::*;
use crate::scalar::{Scalar, Vec3};
use crate::scene::{place_of, Object, ObjectId, Scene};
use crate::text::join;

verus! {

/// A measured distance: its two ends.
#[derive(Clone, Copy, PartialEq, Eq, Structural, Debug)]
pub struct Measurement {
    pub a: Vec3,
    pub b: Vec3,
}

/// The ruler tool.
#[derive(Clone, Copy, PartialEq, Eq, Structural, Debug)]
pub struct MeasureTool {
    pub active: bool,
    pub first: Option<Vec3>,
}

impl MeasureTool {
    pub fn new() -> (r: MeasureTool)
        ensures
            !r.active,
            r.first is None,
    {
        MeasureTool { active: false, first: None }
    }

    pub fn start(&mut self)
        ensures
            final(self).active,
            final(self).first is None,
    {
        self.active = true;
        self.first = None;
    }

    pub fn cancel(&mut self)
        ensures
            !final(self).active,
            final(self).first is None,
    {
        self.active = false;
        self.first = None;
    }

    /// Takes a point. The second one makes a measurement and ends the tool.
    pub fn add_point(&mut self, point: Vec3, measurements: &mut Vec<Measurement>)
        ensures
            match old(self).first {
                None => {
                    &&& final(self).first == Some(point)
                    &&& final(self).active == old(self).active
                    &&& final(measurements)@ == old(measurements)@
                },
                Some(first) => {
                    &&& final(self).first is None
                    &&& !final(self).active
                    &&& final(measurements)@ == old(measurements)@.push(
                        Measurement { a: first, b: point },
                    )
                },
            },
    {
        match self.first {
            None => {
                self.first = Some(point);
            },
            Some(first) => {
                self.first = None;
                measurements.push(Measurement { a: first, b: point });
                self.active = false;
            },
        }
    }
}

/// What is written above an object, by its place in the scene.
#[derive(Clone, Copy, PartialEq, Eq, Structural, Debug)]
pub struct Adornment {
    pub object: usize,
    pub label: bool,
    pub dimensions: bool,
}

/// Is anything written above the object?
pub open spec fn is_adorned(o: Object) -> bool {
    o.visible && (o.show_label || o.show_dimensions)
}

/// What is written above the first objects.
pub open spec fn adornments_of(objects: Seq<Object>, n: nat) -> Seq<Adornment>
    decreases n,
{
    if n == 0 || n > objects.len() {
        Seq::empty()
    } else {
        let before = adornments_of(objects, (n - 1) as nat);
        let o = objects[n - 1];
        if is_adorned(o) {
            before.push(
                Adornment {
                    object: (n - 1) as usize,
                    label: o.show_label,
                    dimensions: o.show_dimensions,
                },
            )
        } else {
            before
        }
    }
}

/// What is written above the objects of a scene: their names, their sizes, or
/// both. Hidden objects carry nothing.
pub fn adornments(scene: &Scene) -> (r: Vec<Adornment>)
    ensures
        r@ == adornments_of(scene.objects@, scene.objects@.len()),
{
    let mut r: Vec<Adornment> = Vec::new();
    let mut n: usize = 0;
    while n < scene.objects.len()
        invariant
            n <= scene.objects@.len(),
            r@ == adornments_of(scene.objects@, n as nat),
        decreases scene.objects@.len() - n,
    {
        let o = &scene.objects[n];
        if o.visible && (o.show_label || o.show_dimensions) {
            r.push(Adornment { object: n, label: o.show_label, dimensions: o.show_dimensions });
        }
        n = n + 1;
    }
    r
}

/// The points of an object that are marked, in its own frame.
#[derive(Clone, Copy, PartialEq, Eq, Structural, Debug)]
pub struct Marks {
    pub pivot: Option<Vec3>,
    pub anchor: Option<Vec3>,
}

/// A point that was set: one away from the origin.
pub open spec fn set_point(p: Vec3) -> Option<Vec3> {
    let zero = Scalar { bits: 0 };
    if p.equal(Vec3 { x: zero, y: zero, z: zero }) {
        None
    } else {
        Some(p)
    }
}

fn point_set(p: Vec3) -> (r: Option<Vec3>)
    ensures
        r == set_point(p),
{
    let zero = Scalar { bits: 0 };
    if p.is_equal(Vec3 { x: zero, y: zero, z: zero }) {
        None
    } else {
        Some(p)
    }
}

/// The pivot and the anchor of the active object, where they were set.
pub open spec fn marks_of(objects: Seq<Object>, active: Option<ObjectId>) -> Marks {
    match active {
        Some(id) => match place_of(objects, id) {
            Some(i) => Marks {
                pivot: set_point(objects[i].pivot),
                anchor: set_point(objects[i].anchor),
            },
            None => Marks { pivot: None, anchor: None },
        },
        None => Marks { pivot: None, anchor: None },
    }
}

/// What is marked of the active object.
pub fn marks(scene: &Scene, active: Option<ObjectId>) -> (r: Marks)
    ensures
        r == marks_of(scene.objects@, active),
{
    match active {
        Some(id) => match scene.find(id) {
            Some(i) => Marks {
                pivot: point_set(scene.objects[i].pivot),
                anchor: point_set(scene.objects[i].anchor),
            },
            None => Marks { pivot: None, anchor: None },
        },
        None => Marks { pivot: None, anchor: None },
    }
}

/// The size of an object as it is written above it.
pub fn dimensions_text(x: &str, y: &str, z: &str, suffix: &str) -> (r: String)
    ensures
        r@ == x@ + " × "@ + y@ + " × "@ + z@ + " "@ + suffix@,
{
    let mut said = join(x, " × ");
    said.append(y);
    said.append(" × ");
    said.append(z);
    said.append(" ");
    said.append(suffix);
    said
}

/// What is written above a selected reference image.
pub fn image_caption(name: &str) -> (r: String)
    ensures
        r@ == name@ + "  ·  G move · End to ground"@,
{
    join(name, "  ·  G move · End to ground")
}

/// Labels and dimensions are drawn for every visible object that asks for
/// them, each as it asks, and for no other.
pub proof fn law_adornments_are_asked_for(objects: Seq<Object>, n: nat, i: usize)
    requires
        n <= objects.len() <= usize::MAX,
    ensures
        (exists|k: int|
            0 <= k < adornments_of(objects, n).len() && (#[trigger] adornments_of(
                objects,
                n,
            )[k]).object == i) <==> i < n && objects[i as int].visible && (
        objects[i as int].show_label || objects[i as int].show_dimensions),
        forall|k: int|
            0 <= k < adornments_of(objects, n).len() ==> {
                let a = #[trigger] adornments_of(objects, n)[k];
                &&& a.object < n
                &&& a.label == objects[a.object as int].show_label
                &&& a.dimensions == objects[a.object as int].show_dimensions
            },
    decreases n,
{
    if n > 0 {
        law_adornments_are_asked_for(objects, (n - 1) as nat, i);
        let before = adornments_of(objects, (n - 1) as nat);
        let now = adornments_of(objects, n);
        if exists|k: int| 0 <= k < before.len() && (#[trigger] before[k]).object == i {
            let k = choose|k: int| 0 <= k < before.len() && (#[trigger] before[k]).object == i;
            assert(now[k].object == i);
        }
        if is_adorned(objects[n - 1]) {
            assert(now[before.len() as int].object == n - 1);
        }
        if exists|k: int| 0 <= k < now.len() && (#[trigger] now[k]).object == i {
            let k = choose|k: int| 0 <= k < now.len() && (#[trigger] now[k]).object == i;
            if k < before.len() {
                assert(before[k].object == i);
            }
        }
    }
}

/// Pivot and anchor are marked for the active object alone, each at its own
/// point, and not while it lies at the origin of the object.
pub proof fn law_marks_are_of_the_active_object(objects: Seq<Object>, active: Option<ObjectId>)
    ensures
        active is None ==> marks_of(objects, active).pivot is None && marks_of(
            objects,
            active,
        ).anchor is None,
        active is Some && place_of(objects, active->0) is Some ==> {
            let o = objects[place_of(objects, active->0)->0];
            let zero = Scalar { bits: 0 };
            let m = marks_of(objects, active);
            &&& m.pivot is Some ==> m.pivot == Some(o.pivot)
            &&& m.anchor is Some ==> m.anchor == Some(o.anchor)
            &&& m.pivot is None <==> o.pivot.x.equal(zero) && o.pivot.y.equal(zero)
                && o.pivot.z.equal(zero)
            &&& m.anchor is None <==> o.anchor.x.equal(zero) && o.anchor.y.equal(zero)
                && o.anchor.z.equal(zero)
        },
{
}

} // verus!
